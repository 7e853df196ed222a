//! Decisions of the editor's commands: cycling the test codepoint through
//! those the font has, and the keyboard shortcuts that ask for it or for a
//! save.
use vstd::prelude::*;
use vstd::string::*;
use crate::cli::CliArgs;
use crate::ufo::{
    find_next_codepoint_in_list,
    find_previous_codepoint_in_list,
    spec_cycle,
    CycleDirection,
};

verus! {

/// Direction in which to cycle through the font's codepoints.
#[derive(Clone, Copy, Debug, PartialEq, Eq, Structural)]
pub enum CodepointDirection {
    Next,
    Previous,
}

pub open spec fn cycle_direction(d: CodepointDirection) -> CycleDirection {
    match d {
        CodepointDirection::Next => CycleDirection::Next,
        CodepointDirection::Previous => CycleDirection::Previous,
    }
}

/// How many codepoints a sample shows at most.
pub const SAMPLE_SIZE: usize = 20;

/// The sample lines for the codepoints `cps` from `i` on, below `n`: each
/// written `U+{cp} `, with a line break after every fifth.
pub open spec fn sample_from(cps: Seq<Seq<char>>, i: int, n: int) -> Seq<char>
    decreases n - i,
{
    if i < 0 || i >= n {
        Seq::empty()
    } else {
        let entry = "U+"@ + cps[i] + " "@;
        let line = if i % 5 == 4 {
            entry.push('\n')
        } else {
            entry
        };
        line + sample_from(cps, i + 1, n)
    }
}

/// A sample of the codepoints `cps`: the first twenty (or all, when there
/// are fewer), then a line `...` when there are more.
pub open spec fn codepoint_sample_text(cps: Seq<Seq<char>>) -> Seq<char> {
    if cps.len() > SAMPLE_SIZE {
        sample_from(cps, 0, SAMPLE_SIZE as int) + "\n..."@
    } else {
        sample_from(cps, 0, cps.len() as int)
    }
}

/// `sample_from(cps, j, k)` is `sample_from(cps, j, m)` continued by the
/// entries from `m` to `k`.
proof fn lemma_sample_prefix(cps: Seq<Seq<char>>, j: int, m: int, k: int)
    requires
        0 <= j <= m <= k,
    ensures
        sample_from(cps, j, k) == sample_from(cps, j, m) + sample_from(cps, m, k),
    decreases m - j,
{
    if j < m {
        lemma_sample_prefix(cps, j + 1, m, k);
        assert(sample_from(cps, j, k) =~= sample_from(cps, j, m) + sample_from(cps, m, k));
    } else {
        assert(sample_from(cps, j, m) =~= Seq::<char>::empty());
        assert(sample_from(cps, j, k) =~= sample_from(cps, j, m) + sample_from(cps, m, k));
    }
}

/// A sample of the codepoints the font has, for the debug log: up to twenty
/// entries `U+{cp} `, five to a line, then `...` when there are more.
pub fn codepoint_sample(all_codepoints: &Vec<String>) -> (r: String)
    ensures
        r@ == codepoint_sample_text(all_codepoints@.map_values(|s: String| s@)),
{
    let ghost cps = all_codepoints@.map_values(|s: String| s@);
    let sample_size = if all_codepoints.len() < SAMPLE_SIZE {
        all_codepoints.len()
    } else {
        SAMPLE_SIZE
    };
    let mut sample = String::new();
    let mut i: usize = 0;
    while i < sample_size
        invariant
            sample_size <= all_codepoints@.len(),
            sample_size <= SAMPLE_SIZE,
            i <= sample_size,
            cps == all_codepoints@.map_values(|s: String| s@),
            sample@ == sample_from(cps, 0, i as int),
        decreases sample_size - i,
    {
        sample.append("U+");
        sample.append(all_codepoints[i].as_str());
        sample.append(" ");
        if i % 5 == 4 {
            sample.append("\n");
        }
        proof {
            lemma_sample_prefix(cps, 0, i as int, i + 1);
            reveal_strlit("U+");
            reveal_strlit(" ");
            reveal_strlit("\n");
            assert(sample_from(cps, i + 1, i + 1) =~= Seq::<char>::empty());
        }
        i = i + 1;
    }
    if all_codepoints.len() > sample_size {
        sample.append("\n...");
    }
    sample
}

/// Cycle the test codepoint of `cli_args` to the next or previous one of
/// `codepoints` (the font's codepoints, sorted), as `spec_cycle` says.
/// When there is one, it becomes the codepoint to show, not yet found in
/// the font, and `true` is returned; otherwise nothing changes.
pub fn cycle_test_codepoint(cli_args: &mut CliArgs, codepoints: &Vec<String>, direction: CodepointDirection) -> (changed:
    bool)
    ensures
        ({
            let current = match old(cli_args).test_unicode {
                Some(u) => u@,
                None => Seq::<char>::empty(),
            };
            match spec_cycle(
                codepoints@.map_values(|s: String| s@),
                current,
                cycle_direction(direction),
            ) {
                Some(cp) => {
                    &&& changed
                    &&& final(cli_args).test_unicode matches Some(u) && u@ == cp
                    &&& !final(cli_args).codepoint_found
                    &&& final(cli_args).debug == old(cli_args).debug
                    &&& final(cli_args).ufo_path == old(cli_args).ufo_path
                },
                None => !changed && *final(cli_args) == *old(cli_args),
            }
        }),
{
    let current_codepoint = cli_args.get_codepoint_string();
    let new_codepoint = match direction {
        CodepointDirection::Next => find_next_codepoint_in_list(
            codepoints.as_slice(),
            current_codepoint.as_str(),
        ),
        CodepointDirection::Previous => find_previous_codepoint_in_list(
            codepoints.as_slice(),
            current_codepoint.as_str(),
        ),
    };
    match new_codepoint {
        Some(cp) => {
            cli_args.set_codepoint(cp);
            true
        },
        None => false,
    }
}

/// The directions asked for by the codepoint shortcuts: with Shift held,
/// `=` (plus) asks for the next codepoint and `-` for the previous one.
pub fn codepoint_cycle_requests(shift_pressed: bool, equal_just_pressed: bool, minus_just_pressed: bool) -> (r:
    Vec<CodepointDirection>)
    ensures
        r@ == (if shift_pressed && equal_just_pressed {
            seq![CodepointDirection::Next]
        } else {
            Seq::empty()
        }) + (if shift_pressed && minus_just_pressed {
            seq![CodepointDirection::Previous]
        } else {
            Seq::empty()
        }),
{
    let mut r: Vec<CodepointDirection> = Vec::new();
    if shift_pressed {
        if equal_just_pressed {
            r.push(CodepointDirection::Next);
        }
        if minus_just_pressed {
            r.push(CodepointDirection::Previous);
        }
    }
    proof {
        assert(r@ =~= (if shift_pressed && equal_just_pressed {
            seq![CodepointDirection::Next]
        } else {
            Seq::empty()
        }) + (if shift_pressed && minus_just_pressed {
            seq![CodepointDirection::Previous]
        } else {
            Seq::empty()
        }));
    }
    r
}

/// Whether the save shortcut was just given: `S` with Command (either
/// Super key) or Control (either Control key) held.
pub fn save_shortcut_pressed(
    super_left: bool,
    super_right: bool,
    control_left: bool,
    control_right: bool,
    s_just_pressed: bool,
) -> (r: bool)
    ensures
        r == ((super_left || super_right || control_left || control_right) && s_just_pressed),
{
    let modifier_pressed = super_left || super_right || control_left || control_right;
    modifier_pressed && s_just_pressed
}

/// The codepoint shortcuts move through the font's sorted codepoints:
/// "next" to the one right after the current codepoint, "previous" to the
/// one right before it, wrapping round.
pub proof fn lemma_shortcuts_move_to_sorted_neighbours(list: Seq<Seq<char>>, current: Seq<char>)
    requires
        crate::unicode::strictly_sorted(list),
        list.contains(current),
        current.len() > 0,
    ensures
        spec_cycle(list, current, cycle_direction(CodepointDirection::Next)) matches Some(y)
            && crate::ufo::follows_in(list, current, y),
        spec_cycle(list, current, cycle_direction(CodepointDirection::Previous)) matches Some(y)
            && crate::ufo::precedes_in(list, current, y),
{
    crate::ufo::lemma_cycle_sorted_neighbour(list, current);
}

} // verus!
