//! Kerning groups: which groups a glyph belongs to on each side.
//!
//! The groups are given as a list of (group name, member glyph names) in
//! the order the font's group map is walked.  A left-side group is named
//! `public.kern1.` followed by its short name, a right-side group
//! `public.kern2.` followed by its short name.
use vstd::prelude::*;
use vstd::string::*;

verus! {

/// Prefix of the names of left-side kerning groups.
pub open spec fn kern1_prefix() -> Seq<char> {
    "public.kern1."@
}

/// Prefix of the names of right-side kerning groups.
pub open spec fn kern2_prefix() -> Seq<char> {
    "public.kern2."@
}

/// `names` lists `glyph`.
pub open spec fn lists_glyph(names: Seq<String>, glyph: Seq<char>) -> bool {
    exists|k: int| 0 <= k < names.len() && (#[trigger] names[k])@ == glyph
}

/// The short name of the last group, among the first `n`, that lists
/// `glyph` and whose name starts with `prefix`.
pub open spec fn last_group_of(
    groups: Seq<(String, Vec<String>)>,
    glyph: Seq<char>,
    prefix: Seq<char>,
    n: int,
) -> Option<Seq<char>>
    decreases n,
{
    if n <= 0 || n > groups.len() {
        None
    } else {
        let (name, members) = groups[n - 1];
        if lists_glyph(members@, glyph) && prefix.is_prefix_of(name@) {
            Some(name@.skip(prefix.len() as int))
        } else {
            last_group_of(groups, glyph, prefix, n - 1)
        }
    }
}

/// Whether `names` lists `glyph`.
fn contains_name(names: &Vec<String>, glyph: &String) -> (r: bool)
    ensures
        r == lists_glyph(names@, glyph@),
{
    let n = names.len();
    let mut k: usize = 0;
    while k < n
        invariant
            n == names@.len(),
            0 <= k <= n,
            forall|j: int| 0 <= j < k ==> (#[trigger] names@[j])@ != glyph@,
        decreases n - k,
    {
        if names[k] == *glyph {
            return true;
        }
        k = k + 1;
    }
    false
}

/// Whether `name` starts with `prefix`.
fn has_prefix(name: &str, prefix: &str) -> (r: bool)
    ensures
        r == prefix@.is_prefix_of(name@),
{
    let n = name.unicode_len();
    let p = prefix.unicode_len();
    if p > n {
        return false;
    }
    let mut i: usize = 0;
    while i < p
        invariant
            p == prefix@.len(),
            n == name@.len(),
            p <= n,
            0 <= i <= p,
            forall|j: int| 0 <= j < i ==> prefix@[j] == name@[j],
        decreases p - i,
    {
        if prefix.get_char(i) != name.get_char(i) {
            return false;
        }
        i = i + 1;
    }
    true
}

/// Find which kerning groups a glyph belongs to: the short names (without
/// the `public.kern1.` or `public.kern2.` prefix) of its left-side and of
/// its right-side group.  When several groups of a side list the glyph, the
/// one met last wins.
pub fn get_glyph_kerning_groups(groups: &Vec<(String, Vec<String>)>, glyph_name: &str) -> (r: (
    Option<String>,
    Option<String>,
))
    ensures
        match last_group_of(groups@, glyph_name@, kern1_prefix(), groups@.len() as int) {
            Some(g) => r.0 matches Some(s) && s@ == g,
            None => r.0 is None,
        },
        match last_group_of(groups@, glyph_name@, kern2_prefix(), groups@.len() as int) {
            Some(g) => r.1 matches Some(s) && s@ == g,
            None => r.1 is None,
        },
{
    proof {
        reveal_strlit("public.kern1.");
        reveal_strlit("public.kern2.");
    }
    let glyph = String::from_str(glyph_name);
    let mut left: Option<String> = None;
    let mut right: Option<String> = None;
    let n = groups.len();
    let mut i: usize = 0;
    while i < n
        invariant
            n == groups@.len(),
            0 <= i <= n,
            glyph@ == glyph_name@,
            kern1_prefix().len() == 13 && kern2_prefix().len() == 13,
            match last_group_of(groups@, glyph_name@, kern1_prefix(), i as int) {
                Some(g) => left matches Some(s) && s@ == g,
                None => left is None,
            },
            match last_group_of(groups@, glyph_name@, kern2_prefix(), i as int) {
                Some(g) => right matches Some(s) && s@ == g,
                None => right is None,
            },
        decreases n - i,
    {
        let name = &groups[i].0;
        let members = &groups[i].1;
        if contains_name(members, &glyph) {
            if has_prefix(name.as_str(), "public.kern1.") {
                let len = name.as_str().unicode_len();
                left = Some(String::from_str(name.as_str().substring_char(13, len)));
            } else if has_prefix(name.as_str(), "public.kern2.") {
                let len = name.as_str().unicode_len();
                right = Some(String::from_str(name.as_str().substring_char(13, len)));
            }
        }
        proof {
            reveal_strlit("public.kern1.");
            reveal_strlit("public.kern2.");
            assert(kern1_prefix() != kern2_prefix()) by {
                assert(kern1_prefix()[11] != kern2_prefix()[11]);
            }
            if kern1_prefix().is_prefix_of(name@) {
                assert(!kern2_prefix().is_prefix_of(name@)) by {
                    assert(name@[11] == kern1_prefix()[11]);
                }
            }
            if name@.len() >= 13 {
                assert(name@.subrange(13, name@.len() as int) =~= name@.skip(13));
            }
        }
        i = i + 1;
    }
    (left, right)
}

} // verus!
