//! Text editor state: the sorts on the design canvas, the text buffers they
//! form, and the cursor of the active buffer.
//!
//! Coordinates and advance widths are carried as the bit patterns of the
//! `f32` values the editor works with; this module only moves them around,
//! the geometry is computed by the application.
use vstd::prelude::*;
use crate::sort_buffer::SortBuffer;

verus! {

/// Bit pattern of an `f32` value (as given by `f32::to_bits`).
#[derive(Clone, Copy, Debug, PartialEq, Eq, Structural)]
pub struct F32Bits(pub u32);

/// A 2D position, each coordinate as the bit pattern of an `f32`.
#[derive(Clone, Copy, Debug, PartialEq, Eq, Structural)]
pub struct Vec2Bits {
    pub x: F32Bits,
    pub y: F32Bits,
}

impl Vec2Bits {
    /// The origin `(0.0, 0.0)`.
    pub fn zero() -> (r: Self)
        ensures
            r == Vec2Bits::spec_zero(),
    {
        Vec2Bits { x: F32Bits(0), y: F32Bits(0) }
    }

    pub open spec fn spec_zero() -> Self {
        Vec2Bits { x: F32Bits(0), y: F32Bits(0) }
    }
}

/// Layout mode for individual sorts.
#[derive(Clone, Copy, Debug, PartialEq, Eq, Structural)]
pub enum SortLayoutMode {
    /// Sort flows like text characters in a line
    Text,
    /// Sort is positioned freely in the design space
    Freeform,
}

/// Text mode configuration.
#[derive(Clone, Copy, Debug)]
pub struct TextModeConfig {
    /// Whether new sorts should be placed in text or freeform mode
    pub default_placement_mode: SortLayoutMode,
    /// Whether to show the mode toggle UI
    pub show_mode_toggle: bool,
}

impl Default for TextModeConfig {
    /// Text placement, toggle hidden.
    fn default() -> (r: Self)
        ensures
            r.default_placement_mode == SortLayoutMode::Text,
            !r.show_mode_toggle,
    {
        TextModeConfig { default_placement_mode: SortLayoutMode::Text, show_mode_toggle: false }
    }
}

/// An entry in the sort buffer: a glyph or a line break.
#[derive(Clone, Debug)]
pub enum SortKind {
    Glyph { glyph_name: String, advance_width: F32Bits },
    LineBreak,
}

/// An entry of the sort buffer.
#[derive(Clone, Debug)]
pub struct SortEntry {
    pub kind: SortKind,
    /// Whether this sort is currently active (in edit mode with points showing)
    pub is_active: bool,
    /// Whether this sort is currently selected (handle is highlighted)
    pub is_selected: bool,
    /// Layout mode for this sort
    pub layout_mode: SortLayoutMode,
    /// Root position (used for text buffer roots and freeform sorts)
    pub root_position: Vec2Bits,
    /// Buffer index (only used for text sorts)
    pub buffer_index: Option<usize>,
    /// Whether this sort is a buffer root (first sort in a text buffer)
    pub is_buffer_root: bool,
    /// Cursor position within this buffer sequence (only for buffer roots)
    pub buffer_cursor_position: Option<usize>,
}

/// Grid layout configuration of the overview.
#[derive(Clone, Copy, Debug)]
pub struct GridConfig {
    /// Number of sorts per row
    pub sorts_per_row: usize,
    /// Horizontal spacing between sorts
    pub horizontal_spacing: F32Bits,
    /// Vertical spacing between rows
    pub vertical_spacing: F32Bits,
    /// Starting position for the grid
    pub grid_origin: Vec2Bits,
}

/// Bit pattern of `64.0_f32`.
pub const F32_64: u32 = 0x4280_0000;

/// Bit pattern of `400.0_f32`.
pub const F32_400: u32 = 0x43c8_0000;

impl Default for GridConfig {
    /// Sixteen sorts per row, spacings 64 and 400, origin at zero.
    fn default() -> (r: Self)
        ensures
            r.sorts_per_row == 16,
            r.horizontal_spacing == F32Bits(F32_64),
            r.vertical_spacing == F32Bits(F32_400),
            r.grid_origin == Vec2Bits::spec_zero(),
    {
        GridConfig {
            sorts_per_row: 16,
            horizontal_spacing: F32Bits(F32_64),
            vertical_spacing: F32Bits(F32_400),
            grid_origin: Vec2Bits::zero(),
        }
    }
}

impl SortKind {
    /// Whether this entry is a glyph.
    pub fn is_glyph(&self) -> (r: bool)
        ensures
            r == (self is Glyph),
    {
        match self {
            SortKind::Glyph { .. } => true,
            SortKind::LineBreak => false,
        }
    }

    /// Whether this entry is a line break.
    pub fn is_line_break(&self) -> (r: bool)
        ensures
            r == (self is LineBreak),
    {
        match self {
            SortKind::Glyph { .. } => false,
            SortKind::LineBreak => true,
        }
    }

    /// The glyph's name as characters; empty for a line break.
    pub open spec fn name_view(&self) -> Seq<char> {
        match self {
            SortKind::Glyph { glyph_name, .. } => glyph_name@,
            SortKind::LineBreak => Seq::empty(),
        }
    }

    /// The glyph name, or the empty string for a line break.
    pub fn glyph_name(&self) -> (r: &str)
        ensures
            r@ == self.name_view(),
    {
        match self {
            SortKind::Glyph { glyph_name, .. } => glyph_name.as_str(),
            SortKind::LineBreak => {
                proof {
                    reveal_strlit("");
                }
                ""
            },
        }
    }

    /// The glyph's advance width; zero for a line break.
    pub open spec fn spec_advance_width(&self) -> F32Bits {
        match self {
            SortKind::Glyph { advance_width, .. } => *advance_width,
            SortKind::LineBreak => F32Bits(0),
        }
    }

    /// The glyph's advance width (bit pattern); zero for a line break.
    pub fn glyph_advance_width(&self) -> (r: F32Bits)
        ensures
            r == self.spec_advance_width(),
    {
        match self {
            SortKind::Glyph { advance_width, .. } => *advance_width,
            SortKind::LineBreak => F32Bits(0),
        }
    }
}

/// A glyph entry with an empty name: the placeholder a new text root holds.
pub open spec fn is_placeholder(e: SortEntry) -> bool {
    e.kind is Glyph && e.kind.name_view().len() == 0
}

impl Default for SortEntry {
    /// An inactive, unselected text-mode glyph with empty name and zero
    /// advance, at the origin; no root, no cursor.
    fn default() -> (r: Self)
        ensures
            r.is_default(),
    {
        SortEntry {
            kind: SortKind::Glyph { glyph_name: String::new(), advance_width: F32Bits(0) },
            is_active: false,
            is_selected: false,
            layout_mode: SortLayoutMode::Text,
            root_position: Vec2Bits::zero(),
            buffer_index: None,
            is_buffer_root: false,
            buffer_cursor_position: None,
        }
    }
}

impl SortEntry {
    /// The fields `default` gives.
    pub open spec fn is_default(&self) -> bool {
        &&& self.kind is Glyph
        &&& self.kind.name_view() == Seq::<char>::empty()
        &&& self.kind.spec_advance_width() == F32Bits(0)
        &&& !self.is_active
        &&& !self.is_selected
        &&& self.layout_mode == SortLayoutMode::Text
        &&& self.root_position == Vec2Bits::spec_zero()
        &&& self.buffer_index is None
        &&& !self.is_buffer_root
        &&& self.buffer_cursor_position is None
    }
}

/// Text editor state for dynamic sort management.
pub struct TextEditorState {
    /// The sorts, in a gap buffer
    pub buffer: SortBuffer<SortEntry>,
    /// Current cursor position in the buffer
    pub cursor_position: usize,
    /// Selection range (start, end) if any
    pub selection: Option<(usize, usize)>,
    /// Viewport offset for scrolling
    pub viewport_offset: Vec2Bits,
    /// Grid layout configuration
    pub grid_config: GridConfig,
}

/// Index of the first entry at or after `i` that satisfies `pred`.
pub open spec fn first_from(s: Seq<SortEntry>, pred: spec_fn(SortEntry) -> bool, i: int) -> Option<int>
    decreases s.len() - i,
{
    if i < 0 || i >= s.len() {
        None
    } else if pred(s[i]) {
        Some(i)
    } else {
        first_from(s, pred, i + 1)
    }
}

/// Index of the last buffer root among the first `n` entries.
pub open spec fn last_root_before(s: Seq<SortEntry>, n: int) -> Option<int>
    decreases n,
{
    if n <= 0 || n > s.len() {
        None
    } else if s[n - 1].is_buffer_root {
        Some(n - 1)
    } else {
        last_root_before(s, n - 1)
    }
}

pub open spec fn selected_root(e: SortEntry) -> bool {
    e.is_buffer_root && e.is_selected
}

pub open spec fn root_with_cursor(e: SortEntry) -> bool {
    e.is_buffer_root && e.buffer_cursor_position is Some
}

/// The buffer root that editing applies to: the first selected root, else
/// the first root that has a cursor, else the last root.
pub open spec fn active_root(s: Seq<SortEntry>) -> Option<int> {
    match first_from(s, |e: SortEntry| selected_root(e), 0) {
        Some(i) => Some(i),
        None => match first_from(s, |e: SortEntry| root_with_cursor(e), 0) {
            Some(i) => Some(i),
            None => last_root_before(s, s.len() as int),
        },
    }
}

/// The cursor stored in the entry at `i`, zero when it has none.
pub open spec fn cursor_of(s: Seq<SortEntry>, i: int) -> nat {
    match s[i].buffer_cursor_position {
        Some(c) => c as nat,
        None => 0,
    }
}

/// Number of entries of the text sequence that starts at the root `root`,
/// counted from `i`: the sequence stops before the next buffer root or the
/// first non-text sort, and an empty placeholder root does not count.
pub open spec fn sequence_length_from(s: Seq<SortEntry>, root: int, i: int) -> nat
    decreases s.len() - i,
{
    if i < 0 || i >= s.len() {
        0
    } else if (i > root && s[i].is_buffer_root) || s[i].layout_mode != SortLayoutMode::Text {
        0
    } else if i == root && is_placeholder(s[i]) {
        sequence_length_from(s, root, i + 1)
    } else {
        1 + sequence_length_from(s, root, i + 1)
    }
}

pub open spec fn sequence_length(s: Seq<SortEntry>, root: int) -> nat {
    sequence_length_from(s, root, root)
}

/// The positions below `n` whose entries satisfy `pred`, in increasing order.
pub open spec fn indices_where(s: Seq<SortEntry>, pred: spec_fn(SortEntry) -> bool, n: int) -> Seq<int>
    decreases n,
{
    if n <= 0 {
        Seq::empty()
    } else if pred(s[n - 1]) {
        indices_where(s, pred, n - 1).push(n - 1)
    } else {
        indices_where(s, pred, n - 1)
    }
}

/// Which sorts a listing keeps.
enum SortFilter {
    All,
    Text,
    Freeform,
    Selected,
}

spec fn filter_pred(f: SortFilter) -> spec_fn(SortEntry) -> bool {
    match f {
        SortFilter::All => |e: SortEntry| true,
        SortFilter::Text => |e: SortEntry| e.layout_mode == SortLayoutMode::Text,
        SortFilter::Freeform => |e: SortEntry| e.layout_mode == SortLayoutMode::Freeform,
        SortFilter::Selected => |e: SortEntry| e.is_selected,
    }
}

/// `r` lists, in order, the positions in `idx` paired with their entries.
pub open spec fn lists_positions(r: Seq<(usize, &SortEntry)>, s: Seq<SortEntry>, idx: Seq<int>) -> bool {
    &&& r.len() == idx.len()
    &&& forall|k: int|
        0 <= k < r.len() ==> (#[trigger] r[k]).0 == idx[k] && *r[k].1 == s[idx[k]]
}

/// `s` with the active flags cleared (when `active`) and the selected flags
/// cleared (when `selected`).
pub open spec fn flags_reset(s: Seq<SortEntry>, active: bool, selected: bool) -> Seq<SortEntry> {
    Seq::new(
        s.len(),
        |k: int|
            SortEntry {
                is_active: !active && s[k].is_active,
                is_selected: !selected && s[k].is_selected,
                ..s[k]
            },
    )
}

/// `a` and `b` have the same length and agree, entry by entry, on the fields
/// that decide how the text sequences run.
pub open spec fn same_layout(a: Seq<SortEntry>, b: Seq<SortEntry>) -> bool {
    &&& a.len() == b.len()
    &&& forall|k: int|
        0 <= k < a.len() ==> {
            &&& (#[trigger] a[k]).kind == b[k].kind
            &&& a[k].layout_mode == b[k].layout_mode
            &&& a[k].is_buffer_root == b[k].is_buffer_root
        }
}

/// Sequence lengths only depend on kinds, layout modes and root marks.
proof fn lemma_sequence_length_same_layout(a: Seq<SortEntry>, b: Seq<SortEntry>, root: int, i: int)
    requires
        same_layout(a, b),
    ensures
        sequence_length_from(a, root, i) == sequence_length_from(b, root, i),
    decreases a.len() - i,
{
    if 0 <= i < a.len() {
        lemma_sequence_length_same_layout(a, b, root, i + 1);
    }
}

/// Bit pattern of `500.0_f32`: the x of the text root a first typed glyph
/// creates when there is no buffer root.
pub const DEFAULT_ROOT_X: u32 = 0x43fa_0000;

/// A fresh text-mode glyph typed into a buffer: inactive, unselected, not a
/// root, at the origin.
pub open spec fn typed_glyph(name: String, advance_width: F32Bits) -> SortEntry {
    SortEntry {
        kind: SortKind::Glyph { glyph_name: name, advance_width },
        is_active: false,
        is_selected: false,
        layout_mode: SortLayoutMode::Text,
        root_position: Vec2Bits::spec_zero(),
        buffer_index: None,
        is_buffer_root: false,
        buffer_cursor_position: None,
    }
}

/// A line break entry of a text buffer.
pub open spec fn line_break_entry() -> SortEntry {
    SortEntry {
        kind: SortKind::LineBreak,
        is_active: false,
        is_selected: false,
        layout_mode: SortLayoutMode::Text,
        root_position: Vec2Bits::spec_zero(),
        buffer_index: None,
        is_buffer_root: false,
        buffer_cursor_position: None,
    }
}

/// Whether `e` is an empty placeholder text root (what `create_text_root`
/// makes).
pub open spec fn is_placeholder_root(e: SortEntry) -> bool {
    e.is_buffer_root && is_placeholder(e)
}

/// `s` with `e` inserted at `index`, or `s` itself when `index` is past the
/// end (the gap buffer ignores such insertions).
pub open spec fn insert_or_keep(s: Seq<SortEntry>, index: int, e: SortEntry) -> Seq<SortEntry> {
    if index <= s.len() {
        s.insert(index, e)
    } else {
        s
    }
}

/// `s` with the entry at `index` given the cursor `c` (when there is such an
/// entry).
pub open spec fn with_cursor(s: Seq<SortEntry>, index: int, c: nat) -> Seq<SortEntry> {
    if 0 <= index < s.len() {
        s.update(index, SortEntry { buffer_cursor_position: Some(c as usize), ..s[index] })
    } else {
        s
    }
}

/// Every arithmetic step of typing at the active cursor stays within `usize`.
pub open spec fn cursor_arithmetic_fits(s: Seq<SortEntry>) -> bool {
    active_root(s) matches Some(r) ==> r + cursor_of(s, r) + 2 <= usize::MAX
}

/// The sorts after typing the glyph `name` at the active buffer's cursor.
pub open spec fn after_insert_at_cursor(s: Seq<SortEntry>, name: String, aw: F32Bits) -> Seq<SortEntry> {
    match active_root(s) {
        Some(r) => {
            let c = cursor_of(s, r);
            if is_placeholder_root(s[r]) {
                s.update(
                    r,
                    SortEntry {
                        is_buffer_root: true,
                        is_active: true,
                        is_selected: true,
                        buffer_cursor_position: Some(1),
                        root_position: s[r].root_position,
                        ..typed_glyph(name, aw)
                    },
                )
            } else {
                with_cursor(insert_or_keep(s, r + c, typed_glyph(name, aw)), r, c + 1)
            }
        },
        None => after_root_with_glyph(
            s,
            name,
            aw,
            Vec2Bits { x: F32Bits(DEFAULT_ROOT_X), y: F32Bits(0) },
        ),
    }
}

/// The sorts after starting a new text buffer whose root is the glyph
/// `name`, at `pos`, with the cursor after it.
pub open spec fn after_root_with_glyph(s: Seq<SortEntry>, name: String, aw: F32Bits, pos: Vec2Bits) -> Seq<SortEntry> {
    flags_reset(s, true, true).push(
        SortEntry {
            kind: SortKind::Glyph { glyph_name: name, advance_width: aw },
            is_active: true,
            is_selected: true,
            layout_mode: SortLayoutMode::Text,
            root_position: pos,
            buffer_index: None,
            is_buffer_root: true,
            buffer_cursor_position: Some(1),
        },
    )
}

/// The new entry `create_text_root` appends: an empty placeholder root,
/// active and selected, with its cursor at the start.
pub open spec fn placeholder_root_entry(pos: Vec2Bits, index: nat, name: String) -> SortEntry {
    SortEntry {
        kind: SortKind::Glyph { glyph_name: name, advance_width: F32Bits(0) },
        is_active: true,
        is_selected: true,
        layout_mode: SortLayoutMode::Text,
        root_position: pos,
        buffer_index: Some(index as usize),
        is_buffer_root: true,
        buffer_cursor_position: Some(0),
    }
}

/// The sorts after deleting the glyph before the active buffer's cursor.
pub open spec fn after_delete_at_cursor(s: Seq<SortEntry>) -> Seq<SortEntry> {
    match active_root(s) {
        Some(r) => {
            let c = cursor_of(s, r);
            if c == 0 {
                s
            } else {
                let d = r + c - 1;
                let s1 = if d < s.len() { s.remove(d) } else { s };
                with_cursor(s1, r, (c - 1) as nat)
            }
        },
        None => s,
    }
}

/// The sorts after inserting a line break at the active buffer's cursor.
pub open spec fn after_line_break_at_cursor(s: Seq<SortEntry>) -> Seq<SortEntry> {
    match active_root(s) {
        Some(r) => {
            let c = cursor_of(s, r);
            with_cursor(insert_or_keep(s, r + c, line_break_entry()), r, c + 1)
        },
        None => s,
    }
}

/// The sorts after `create_text_root` at `pos`: every sort deactivated and
/// deselected, then an empty placeholder root appended.
pub open spec fn after_text_root(s: Seq<SortEntry>, pos: Vec2Bits, name: String) -> Seq<SortEntry> {
    flags_reset(s, true, true).push(placeholder_root_entry(pos, s.len(), name))
}

/// The sorts after `add_freeform_sort`: every sort deactivated and
/// deselected, then the new freeform glyph appended, active and selected.
pub open spec fn after_freeform_sort(s: Seq<SortEntry>, name: String, pos: Vec2Bits, aw: F32Bits) -> Seq<SortEntry> {
    flags_reset(s, true, true).push(
        SortEntry {
            kind: SortKind::Glyph { glyph_name: name, advance_width: aw },
            is_active: true,
            is_selected: true,
            layout_mode: SortLayoutMode::Freeform,
            root_position: pos,
            buffer_index: None,
            is_buffer_root: false,
            buffer_cursor_position: None,
        },
    )
}

/// The sorts after `create_new_line`: a line break at the cursor, a new empty
/// root (active, selected, cursor at the start) right after it, and the old
/// root deactivated and deselected.
pub open spec fn after_new_line(s: Seq<SortEntry>, pos: Vec2Bits, name: String) -> Seq<SortEntry> {
    match active_root(s) {
        Some(r) => {
            let c = cursor_of(s, r);
            let at = r + c;
            let s1 = insert_or_keep(s, at, line_break_entry());
            let s2 = insert_or_keep(s1, at + 1, placeholder_root_entry(pos, (at + 1) as nat, name));
            if 0 <= r < s2.len() {
                s2.update(r, SortEntry { is_selected: false, is_active: false, ..s2[r] })
            } else {
                s2
            }
        },
        None => s,
    }
}

/// The sorts after moving the active buffer's cursor one place right
/// (unless it is at the end of its sequence).
pub open spec fn after_cursor_right(s: Seq<SortEntry>) -> Seq<SortEntry> {
    match active_root(s) {
        Some(r) => if cursor_of(s, r) < sequence_length(s, r) {
            with_cursor(s, r, cursor_of(s, r) + 1)
        } else {
            s
        },
        None => s,
    }
}

/// The sorts after moving the active buffer's cursor one place left (unless
/// it is at the start).
pub open spec fn after_cursor_left(s: Seq<SortEntry>) -> Seq<SortEntry> {
    match active_root(s) {
        Some(r) => if cursor_of(s, r) > 0 {
            with_cursor(s, r, (cursor_of(s, r) - 1) as nat)
        } else {
            s
        },
        None => s,
    }
}

/// The sorts after moving up to the previous buffer: the current root is
/// deselected, the nearest root before it selected with its cursor at the
/// end of its sequence.
pub open spec fn after_cursor_up(s: Seq<SortEntry>) -> Seq<SortEntry> {
    match active_root(s) {
        Some(r) => match last_root_before(s, r) {
            Some(p) => {
                let s1 = s.update(r, SortEntry { is_selected: false, ..s[r] });
                s1.update(
                    p,
                    SortEntry {
                        is_selected: true,
                        buffer_cursor_position: Some(sequence_length(s, p) as usize),
                        ..s1[p]
                    },
                )
            },
            None => s,
        },
        None => s,
    }
}

/// The sorts after moving down to the next buffer: the current root is
/// deselected, the nearest root after it selected with its cursor at the
/// start.
pub open spec fn after_cursor_down(s: Seq<SortEntry>) -> Seq<SortEntry> {
    match active_root(s) {
        Some(r) => match first_from(s, |e: SortEntry| e.is_buffer_root, r + 1) {
            Some(q) => {
                let s1 = s.update(r, SortEntry { is_selected: false, ..s[r] });
                s1.update(q, SortEntry { is_selected: true, buffer_cursor_position: Some(0), ..s1[q] })
            },
            None => s,
        },
        None => s,
    }
}

/// Scanning past entries that fail `pred` does not change the first match.
proof fn lemma_first_from_skip(s: Seq<SortEntry>, pred: spec_fn(SortEntry) -> bool, i: int, j: int)
    requires
        0 <= i <= j <= s.len(),
        forall|k: int| i <= k < j ==> !pred(#[trigger] s[k]),
    ensures
        first_from(s, pred, i) == first_from(s, pred, j),
    decreases j - i,
{
    if i < j {
        lemma_first_from_skip(s, pred, i + 1, j);
    }
}

/// After `create_text_root` the new placeholder root is the active one.
proof fn lemma_new_root_is_active(s: Seq<SortEntry>, pos: Vec2Bits, name: String)
    ensures
        active_root(after_text_root(s, pos, name)) == Some(s.len() as int),
{
    let t = after_text_root(s, pos, name);
    lemma_first_from_skip(t, |e: SortEntry| selected_root(e), 0, s.len() as int);
}

/// Index of the last text-mode buffer root among the first `n` entries.
pub open spec fn last_text_root_before(s: Seq<SortEntry>, n: int) -> Option<int>
    decreases n,
{
    if n <= 0 || n > s.len() {
        None
    } else if s[n - 1].is_buffer_root && s[n - 1].layout_mode == SortLayoutMode::Text {
        Some(n - 1)
    } else {
        last_text_root_before(s, n - 1)
    }
}

/// Whether the root's own advance counts in the flow: it is a glyph with a
/// name (not an empty placeholder).
pub open spec fn root_advances(e: SortEntry) -> bool {
    e.kind is Glyph && e.kind.name_view().len() > 0
}

/// The entries whose advance widths add up, in order, to the horizontal
/// offset of the entry at `j` from the root `root`: the glyphs after the last
/// line break before `j` (and the root itself when no line break intervenes
/// and it has a name).
pub open spec fn flow_advances(s: Seq<SortEntry>, root: int, j: int) -> Seq<int>
    decreases j - root,
{
    if j <= root + 1 {
        if root_advances(s[root]) {
            seq![root]
        } else {
            Seq::empty()
        }
    } else if s[j - 1].kind is LineBreak {
        Seq::empty()
    } else {
        flow_advances(s, root, j - 1).push(j - 1)
    }
}

/// Number of line breaks strictly between `root` and `j`.
pub open spec fn flow_line_breaks(s: Seq<SortEntry>, root: int, j: int) -> nat
    decreases j - root,
{
    if j <= root + 1 {
        0
    } else if s[j - 1].kind is LineBreak {
        flow_line_breaks(s, root, j - 1) + 1
    } else {
        flow_line_breaks(s, root, j - 1)
    }
}

/// How the position of a text sort is obtained from its text root.
pub enum FlowPlan {
    /// The sort is the root itself: it sits at the root position.
    Root { root_index: usize },
    /// The sort sits at the root position moved right by the sum (taken in
    /// this order, from zero) of the advance widths of `advance_indices` and
    /// down by `line_breaks` line heights.
    Offset { root_index: usize, advance_indices: Vec<usize>, line_breaks: usize },
}

/// The plan `text_flow_plan` gives for the entry at `p`.
pub open spec fn spec_flow_plan(s: Seq<SortEntry>, p: int) -> Option<(int, Option<(Seq<int>, nat)>)> {
    if 0 <= p < s.len() && s[p].layout_mode == SortLayoutMode::Text {
        match last_text_root_before(s, p + 1) {
            Some(root) => if root == p {
                Some((root, None))
            } else {
                Some((root, Some((flow_advances(s, root, p), flow_line_breaks(s, root, p)))))
            },
            None => None,
        }
    } else {
        None
    }
}

impl FlowPlan {
    /// The plan as plain values: the root, and for a non-root sort the
    /// indices to add up and the number of line breaks.
    pub open spec fn plan_view(&self) -> (int, Option<(Seq<int>, nat)>) {
        match self {
            FlowPlan::Root { root_index } => (*root_index as int, None),
            FlowPlan::Offset { root_index, advance_indices, line_breaks } => (
                *root_index as int,
                Some((advance_indices@.map_values(|i: usize| i as int), *line_breaks as nat)),
            ),
        }
    }
}

/// Line starts of the text after the root `root`, counting entries from the
/// root (the root's line starts at 0), over the entries before `n`: one more
/// for each line break, wherever it lies after the root.
pub open spec fn line_starts_upto(s: Seq<SortEntry>, root: int, n: int) -> Seq<nat>
    decreases n - root,
{
    if n <= root + 1 {
        seq![0nat]
    } else if s[n - 1].kind is LineBreak {
        line_starts_upto(s, root, n - 1).push((n - 1 - root) as nat)
    } else {
        line_starts_upto(s, root, n - 1)
    }
}

proof fn lemma_line_starts_nonempty(s: Seq<SortEntry>, root: int, n: int)
    ensures
        line_starts_upto(s, root, n).len() >= 1,
        line_starts_upto(s, root, n)[0] == 0,
    decreases n - root,
{
    if n > root + 1 {
        lemma_line_starts_nonempty(s, root, n - 1);
    }
}

/// The line the cursor is on: scanning the line starts in order, the last
/// one reached before a start beyond the cursor.
pub open spec fn scan_line(starts: Seq<nat>, cursor: nat, k: int, current: int) -> int
    decreases starts.len() - k,
{
    if k < 0 || k >= starts.len() {
        current
    } else if cursor < starts[k] {
        current
    } else {
        scan_line(starts, cursor, k + 1, k)
    }
}

/// Line structure of the active text buffer, for moving the cursor between
/// lines.
pub struct MultilineCursor {
    /// The active buffer root
    pub root_index: usize,
    /// Its cursor (zero when it has none)
    pub cursor: usize,
    /// Start of each line, counted in entries from the root
    pub line_starts: Vec<usize>,
    /// Index in `line_starts` of the cursor's line
    pub current_line: usize,
    /// Number of horizontal offsets of the layout: one for the root's line
    /// start and one per entry after the root
    pub offsets_len: usize,
}

impl MultilineCursor {
    /// Range of cursor positions of the line above the cursor's line, or
    /// `None` on the first line.
    pub fn line_above(&self) -> (r: Option<(usize, usize)>)
        requires
            self.current_line < self.line_starts@.len(),
        ensures
            r == (if self.current_line == 0 {
                None
            } else {
                Some(
                    (
                        self.line_starts@[self.current_line - 1],
                        self.line_starts@[self.current_line as int],
                    ),
                )
            }),
    {
        if self.current_line == 0 {
            return None;
        }
        let prev_start = self.line_starts[self.current_line - 1];
        let prev_end = self.line_starts[self.current_line];
        Some((prev_start, prev_end))
    }

    /// Range of cursor positions of the line below the cursor's line, or
    /// `None` on the last line.
    pub fn line_below(&self) -> (r: Option<(usize, usize)>)
        requires
            self.current_line < self.line_starts@.len(),
        ensures
            r == (if self.current_line + 1 >= self.line_starts@.len() {
                None
            } else {
                Some(
                    (
                        self.line_starts@[self.current_line + 1],
                        if self.current_line + 2 < self.line_starts@.len() {
                            self.line_starts@[self.current_line + 2]
                        } else {
                            self.offsets_len
                        },
                    ),
                )
            }),
    {
        let n = self.line_starts.len();
        if self.current_line + 1 >= n {
            return None;
        }
        let next_start = self.line_starts[self.current_line + 1];
        let next_end = if self.current_line + 2 < n {
            self.line_starts[self.current_line + 2]
        } else {
            self.offsets_len
        };
        Some((next_start, next_end))
    }
}

impl Default for TextEditorState {
    /// An empty editor with the default grid.
    fn default() -> (r: Self)
        ensures
            r.wf(),
            r.sorts() == Seq::<SortEntry>::empty(),
            r.cursor_position == 0,
            r.selection is None,
            r.viewport_offset == Vec2Bits::spec_zero(),
            r.grid_config.sorts_per_row == 16,
    {
        TextEditorState {
            buffer: SortBuffer::new(),
            cursor_position: 0,
            selection: None,
            viewport_offset: Vec2Bits::zero(),
            grid_config: GridConfig::default(),
        }
    }
}

impl TextEditorState {
    /// The sort buffer is consistent.
    pub open spec fn wf(&self) -> bool {
        self.buffer.wf()
    }

    /// The entries in buffer order.
    pub open spec fn sorts(&self) -> Seq<SortEntry> {
        self.buffer@
    }

    /// `self` has the cursor, selection, viewport offset and grid of
    /// `other`: the state besides the sorts.
    pub open spec fn same_settings(&self, other: Self) -> bool {
        &&& self.cursor_position == other.cursor_position
        &&& self.selection == other.selection
        &&& self.viewport_offset == other.viewport_offset
        &&& self.grid_config == other.grid_config
    }

    /// The sort at buffer position `position`, if any.
    pub fn get_sort_at_position(&self, position: usize) -> (r: Option<&SortEntry>)
        requires
            self.wf(),
        ensures
            r == (if position < self.sorts().len() {
                Some(&self.sorts()[position as int])
            } else {
                None
            }),
    {
        self.buffer.get(position)
    }

    /// Index of the active buffer root: the first selected root, else the
    /// first root with a cursor, else the last root.
    pub fn find_active_buffer_root_index(&self) -> (r: Option<usize>)
        requires
            self.wf(),
        ensures
            r is Some == active_root(self.sorts()) is Some,
            r matches Some(i) ==> active_root(self.sorts()) == Some(i as int),
            r matches Some(i) ==> i < self.sorts().len() && self.sorts()[i as int].is_buffer_root,
    {
        let ghost s = self.sorts();
        let n = self.buffer.len();
        let mut i: usize = 0;
        while i < n
            invariant
                self.wf(),
                s == self.sorts(),
                n == s.len(),
                0 <= i <= n,
                first_from(s, |e: SortEntry| selected_root(e), 0) == first_from(
                    s,
                    |e: SortEntry| selected_root(e),
                    i as int,
                ),
            decreases n - i,
        {
            let sort = self.buffer.get(i).unwrap();
            if sort.is_buffer_root && sort.is_selected {
                return Some(i);
            }
            i = i + 1;
        }
        let mut i: usize = 0;
        while i < n
            invariant
                self.wf(),
                s == self.sorts(),
                n == s.len(),
                0 <= i <= n,
                first_from(s, |e: SortEntry| selected_root(e), 0) is None,
                first_from(s, |e: SortEntry| root_with_cursor(e), 0) == first_from(
                    s,
                    |e: SortEntry| root_with_cursor(e),
                    i as int,
                ),
            decreases n - i,
        {
            let sort = self.buffer.get(i).unwrap();
            if sort.is_buffer_root && sort.buffer_cursor_position.is_some() {
                return Some(i);
            }
            i = i + 1;
        }
        let mut i: usize = n;
        while i > 0
            invariant
                self.wf(),
                s == self.sorts(),
                n == s.len(),
                0 <= i <= n,
                first_from(s, |e: SortEntry| selected_root(e), 0) is None,
                first_from(s, |e: SortEntry| root_with_cursor(e), 0) is None,
                last_root_before(s, n as int) == last_root_before(s, i as int),
            decreases i,
        {
            let sort = self.buffer.get(i - 1).unwrap();
            if sort.is_buffer_root {
                return Some(i - 1);
            }
            i = i - 1;
        }
        None
    }

    /// Clear the active flag (when `active`) and the selected flag (when
    /// `selected`) of every sort; nothing else changes.
    fn reset_flags(&mut self, active: bool, selected: bool)
        requires
            old(self).wf(),
        ensures
            final(self).wf(),
            final(self).sorts() == flags_reset(old(self).sorts(), active, selected),
            final(self).same_settings(*old(self)),
    {
        let ghost s0 = self.sorts();
        let n = self.buffer.len();
        let mut i: usize = 0;
        while i < n
            invariant
                self.wf(),
                n == s0.len(),
                self.sorts().len() == n,
                0 <= i <= n,
                forall|k: int|
                    0 <= k < i ==> #[trigger] self.sorts()[k] == flags_reset(s0, active, selected)[k],
                forall|k: int| i <= k < n ==> #[trigger] self.sorts()[k] == s0[k],
                self.cursor_position == old(self).cursor_position,
                self.selection == old(self).selection,
                self.viewport_offset == old(self).viewport_offset,
                self.grid_config == old(self).grid_config,
            decreases n - i,
        {
            if let Some(sort) = self.buffer.get_mut(i) {
                if active {
                    sort.is_active = false;
                }
                if selected {
                    sort.is_selected = false;
                }
            }
            i = i + 1;
        }
        assert(self.sorts() =~= flags_reset(s0, active, selected));
    }

    /// Clear active state from all sorts.
    pub fn clear_active_state(&mut self)
        requires
            old(self).wf(),
        ensures
            final(self).wf(),
            final(self).same_settings(*old(self)),
            final(self).sorts() == flags_reset(old(self).sorts(), true, false),
    {
        self.reset_flags(true, false);
    }

    /// Clear all selections.
    pub fn clear_selections(&mut self)
        requires
            old(self).wf(),
        ensures
            final(self).wf(),
            final(self).same_settings(*old(self)),
            final(self).sorts() == flags_reset(old(self).sorts(), false, true),
    {
        self.reset_flags(false, true);
    }

    /// Clear both active state and selections from all sorts.
    pub fn clear_all_states(&mut self)
        requires
            old(self).wf(),
        ensures
            final(self).wf(),
            final(self).same_settings(*old(self)),
            final(self).sorts() == flags_reset(old(self).sorts(), true, true),
    {
        self.reset_flags(true, true);
    }

    /// Activate the sort at `position`, deactivating every other one; false
    /// (with every sort deactivated) when there is no sort there.
    pub fn activate_sort(&mut self, position: usize) -> (r: bool)
        requires
            old(self).wf(),
        ensures
            final(self).wf(),
            final(self).same_settings(*old(self)),
            r == (position < old(self).sorts().len()),
            final(self).sorts() == (if r {
                flags_reset(old(self).sorts(), true, false).update(
                    position as int,
                    SortEntry { is_active: true, ..flags_reset(old(self).sorts(), true, false)[position as int] },
                )
            } else {
                flags_reset(old(self).sorts(), true, false)
            }),
    {
        self.reset_flags(true, false);
        if let Some(sort) = self.buffer.get_mut(position) {
            sort.is_active = true;
            true
        } else {
            false
        }
    }

    /// Set the selected flag of the sort at `position` to `value`; false when
    /// there is no sort there.
    fn set_selected(&mut self, position: usize, value: bool) -> (r: bool)
        requires
            old(self).wf(),
        ensures
            final(self).wf(),
            final(self).same_settings(*old(self)),
            r == (position < old(self).sorts().len()),
            r ==> final(self).sorts() == old(self).sorts().update(
                position as int,
                SortEntry { is_selected: value, ..old(self).sorts()[position as int] },
            ),
            !r ==> final(self).sorts() == old(self).sorts(),
    {
        if let Some(sort) = self.buffer.get_mut(position) {
            sort.is_selected = value;
            true
        } else {
            false
        }
    }

    /// Select the sort at `position` (several can be selected); false when
    /// there is no sort there.
    pub fn select_sort(&mut self, position: usize) -> (r: bool)
        requires
            old(self).wf(),
        ensures
            final(self).wf(),
            final(self).same_settings(*old(self)),
            r == (position < old(self).sorts().len()),
            r ==> final(self).sorts() == old(self).sorts().update(
                position as int,
                SortEntry { is_selected: true, ..old(self).sorts()[position as int] },
            ),
            !r ==> final(self).sorts() == old(self).sorts(),
    {
        self.set_selected(position, true)
    }

    /// Deselect the sort at `position`; false when there is no sort there.
    pub fn deselect_sort(&mut self, position: usize) -> (r: bool)
        requires
            old(self).wf(),
        ensures
            final(self).wf(),
            final(self).same_settings(*old(self)),
            r == (position < old(self).sorts().len()),
            r ==> final(self).sorts() == old(self).sorts().update(
                position as int,
                SortEntry { is_selected: false, ..old(self).sorts()[position as int] },
            ),
            !r ==> final(self).sorts() == old(self).sorts(),
    {
        self.set_selected(position, false)
    }

    /// Flip the selection of the sort at `position`; false when there is no
    /// sort there.
    pub fn toggle_sort_selection(&mut self, position: usize) -> (r: bool)
        requires
            old(self).wf(),
        ensures
            final(self).wf(),
            final(self).same_settings(*old(self)),
            r == (position < old(self).sorts().len()),
            r ==> final(self).sorts() == old(self).sorts().update(
                position as int,
                SortEntry {
                    is_selected: !old(self).sorts()[position as int].is_selected,
                    ..old(self).sorts()[position as int]
                },
            ),
            !r ==> final(self).sorts() == old(self).sorts(),
    {
        if let Some(sort) = self.buffer.get_mut(position) {
            sort.is_selected = !sort.is_selected;
            true
        } else {
            false
        }
    }

    /// Whether the sort at `position` exists and is selected.
    pub fn is_sort_selected(&self, position: usize) -> (r: bool)
        requires
            self.wf(),
        ensures
            r == (position < self.sorts().len() && self.sorts()[position as int].is_selected),
    {
        if let Some(sort) = self.buffer.get(position) {
            sort.is_selected
        } else {
            false
        }
    }

    fn collect_sorts(&self, filter: SortFilter) -> (r: Vec<(usize, &SortEntry)>)
        requires
            self.wf(),
        ensures
            lists_positions(
                r@,
                self.sorts(),
                indices_where(self.sorts(), filter_pred(filter), self.sorts().len() as int),
            ),
    {
        let ghost s = self.sorts();
        let ghost pred = filter_pred(filter);
        let n = self.buffer.len();
        let mut result: Vec<(usize, &SortEntry)> = Vec::new();
        let mut i: usize = 0;
        while i < n
            invariant
                self.wf(),
                s == self.sorts(),
                pred == filter_pred(filter),
                n == s.len(),
                0 <= i <= n,
                lists_positions(result@, s, indices_where(s, pred, i as int)),
            decreases n - i,
        {
            let sort = self.buffer.get(i).unwrap();
            let keep = match filter {
                SortFilter::All => true,
                SortFilter::Text => sort.layout_mode == SortLayoutMode::Text,
                SortFilter::Freeform => sort.layout_mode == SortLayoutMode::Freeform,
                SortFilter::Selected => sort.is_selected,
            };
            assert(keep == pred(s[i as int]));
            if keep {
                result.push((i, sort));
            }
            i = i + 1;
        }
        result
    }

    /// All sorts with their positions, in buffer order.
    pub fn get_all_sorts(&self) -> (r: Vec<(usize, &SortEntry)>)
        requires
            self.wf(),
        ensures
            lists_positions(
                r@,
                self.sorts(),
                indices_where(self.sorts(), |e: SortEntry| true, self.sorts().len() as int),
            ),
    {
        self.collect_sorts(SortFilter::All)
    }

    /// The text-mode sorts with their positions, in buffer order.
    pub fn get_text_sorts(&self) -> (r: Vec<(usize, &SortEntry)>)
        requires
            self.wf(),
        ensures
            lists_positions(
                r@,
                self.sorts(),
                indices_where(
                    self.sorts(),
                    |e: SortEntry| e.layout_mode == SortLayoutMode::Text,
                    self.sorts().len() as int,
                ),
            ),
    {
        self.collect_sorts(SortFilter::Text)
    }

    /// The freeform sorts with their positions, in buffer order.
    pub fn get_freeform_sorts(&self) -> (r: Vec<(usize, &SortEntry)>)
        requires
            self.wf(),
        ensures
            lists_positions(
                r@,
                self.sorts(),
                indices_where(
                    self.sorts(),
                    |e: SortEntry| e.layout_mode == SortLayoutMode::Freeform,
                    self.sorts().len() as int,
                ),
            ),
    {
        self.collect_sorts(SortFilter::Freeform)
    }

    /// The selected sorts with their positions, in buffer order.
    pub fn get_selected_sorts(&self) -> (r: Vec<(usize, &SortEntry)>)
        requires
            self.wf(),
        ensures
            lists_positions(
                r@,
                self.sorts(),
                indices_where(self.sorts(), |e: SortEntry| e.is_selected, self.sorts().len() as int),
            ),
    {
        self.collect_sorts(SortFilter::Selected)
    }

    /// The first active sort and its position, if any.
    pub fn get_active_sort(&self) -> (r: Option<(usize, &SortEntry)>)
        requires
            self.wf(),
        ensures
            r == (match first_from(self.sorts(), |e: SortEntry| e.is_active, 0) {
                Some(i) => Some((i as usize, &self.sorts()[i])),
                None => None,
            }),
    {
        let ghost s = self.sorts();
        let n = self.buffer.len();
        let mut i: usize = 0;
        while i < n
            invariant
                self.wf(),
                s == self.sorts(),
                n == s.len(),
                0 <= i <= n,
                first_from(s, |e: SortEntry| e.is_active, 0) == first_from(
                    s,
                    |e: SortEntry| e.is_active,
                    i as int,
                ),
            decreases n - i,
        {
            let sort = self.buffer.get(i).unwrap();
            if sort.is_active {
                return Some((i, sort));
            }
            i = i + 1;
        }
        None
    }

    /// Length of the text sequence that starts at the root `root_index`.
    pub fn get_buffer_sequence_length(&self, root_index: usize) -> (r: usize)
        requires
            self.wf(),
        ensures
            r == sequence_length(self.sorts(), root_index as int),
    {
        let ghost s = self.sorts();
        let n = self.buffer.len();
        let mut length: usize = 0;
        let mut i: usize = root_index;
        while i < n
            invariant
                self.wf(),
                s == self.sorts(),
                n == s.len(),
                root_index <= i,
                length <= i - root_index,
                length + sequence_length_from(s, root_index as int, i as int) == sequence_length(
                    s,
                    root_index as int,
                ),
            decreases n - i,
        {
            let sort = self.buffer.get(i).unwrap();
            if (i > root_index && sort.is_buffer_root) || sort.layout_mode != SortLayoutMode::Text {
                return length;
            }
            if !(i == root_index && sort.kind.is_glyph() && sort.kind.glyph_name().is_empty()) {
                length = length + 1;
            }
            i = i + 1;
        }
        length
    }

    /// Set the cursor stored in the entry at `index` to `value`.
    fn set_cursor_at(&mut self, index: usize, value: usize)
        requires
            old(self).wf(),
            index < old(self).sorts().len(),
        ensures
            final(self).wf(),
            final(self).same_settings(*old(self)),
            final(self).sorts() == old(self).sorts().update(
                index as int,
                SortEntry { buffer_cursor_position: Some(value), ..old(self).sorts()[index as int] },
            ),
    {
        if let Some(root_sort) = self.buffer.get_mut(index) {
            root_sort.buffer_cursor_position = Some(value);
        }
    }

    /// Move the active buffer's cursor to `position`, clamped to the length
    /// of its text sequence; nothing happens without a buffer root.
    pub fn move_cursor_to(&mut self, position: usize)
        requires
            old(self).wf(),
        ensures
            final(self).wf(),
            final(self).same_settings(*old(self)),
            final(self).sorts() == (match active_root(old(self).sorts()) {
                Some(r) => {
                    let len = sequence_length(old(self).sorts(), r);
                    old(self).sorts().update(
                        r,
                        SortEntry {
                            buffer_cursor_position: Some(
                                (if position <= len { position as nat } else { len }) as usize,
                            ),
                            ..old(self).sorts()[r]
                        },
                    )
                },
                None => old(self).sorts(),
            }),
    {
        if let Some(root_index) = self.find_active_buffer_root_index() {
            let max_pos = self.get_buffer_sequence_length(root_index);
            let clamped = if position <= max_pos { position } else { max_pos };
            self.set_cursor_at(root_index, clamped);
        }
    }

    /// Move the active buffer's cursor one place left, unless it is at the
    /// start.
    pub fn move_cursor_left(&mut self)
        requires
            old(self).wf(),
        ensures
            final(self).wf(),
            final(self).same_settings(*old(self)),
            final(self).sorts() == (match active_root(old(self).sorts()) {
                Some(r) => if cursor_of(old(self).sorts(), r) > 0 {
                    old(self).sorts().update(
                        r,
                        SortEntry {
                            buffer_cursor_position: Some(
                                (cursor_of(old(self).sorts(), r) - 1) as usize,
                            ),
                            ..old(self).sorts()[r]
                        },
                    )
                } else {
                    old(self).sorts()
                },
                None => old(self).sorts(),
            }),
    {
        if let Some(root_index) = self.find_active_buffer_root_index() {
            let current_pos = match self.buffer.get(root_index).unwrap().buffer_cursor_position {
                Some(c) => c,
                None => 0,
            };
            if current_pos > 0 {
                self.set_cursor_at(root_index, current_pos - 1);
            }
        }
    }

    /// Move the active buffer's cursor one place right, unless it is at the
    /// end of its text sequence.
    pub fn move_cursor_right(&mut self)
        requires
            old(self).wf(),
        ensures
            final(self).wf(),
            final(self).same_settings(*old(self)),
            final(self).sorts() == (match active_root(old(self).sorts()) {
                Some(r) => if cursor_of(old(self).sorts(), r) < sequence_length(old(self).sorts(), r) {
                    old(self).sorts().update(
                        r,
                        SortEntry {
                            buffer_cursor_position: Some(
                                (cursor_of(old(self).sorts(), r) + 1) as usize,
                            ),
                            ..old(self).sorts()[r]
                        },
                    )
                } else {
                    old(self).sorts()
                },
                None => old(self).sorts(),
            }),
    {
        if let Some(root_index) = self.find_active_buffer_root_index() {
            let max_pos = self.get_buffer_sequence_length(root_index);
            let current_pos = match self.buffer.get(root_index).unwrap().buffer_cursor_position {
                Some(c) => c,
                None => 0,
            };
            if current_pos < max_pos {
                self.set_cursor_at(root_index, current_pos + 1);
            }
        }
    }

    /// Type the glyph `glyph_name` at the cursor of the active text buffer.
    /// An empty placeholder root is replaced by the glyph (which becomes the
    /// root, cursor after it); otherwise the glyph is inserted at the root's
    /// index plus its cursor and the cursor advances.  Without any buffer
    /// root a new root holding the glyph is started at `(500, 0)`.
    pub fn insert_sort_at_cursor(&mut self, glyph_name: String, advance_width: F32Bits)
        requires
            old(self).wf(),
            old(self).buffer.has_room_for(1),
            cursor_arithmetic_fits(old(self).sorts()),
        ensures
            final(self).wf(),
            final(self).same_settings(*old(self)),
            final(self).sorts() == after_insert_at_cursor(old(self).sorts(), glyph_name, advance_width),
    {
        let ghost s = self.sorts();
        if let Some(root_index) = self.find_active_buffer_root_index() {
            let cursor = match self.buffer.get(root_index).unwrap().buffer_cursor_position {
                Some(c) => c,
                None => 0,
            };
            let root = self.buffer.get(root_index).unwrap();
            if root.is_buffer_root && root.kind.is_glyph() && root.kind.glyph_name().is_empty() {
                let kept_root_position = root.root_position;
                if let Some(root_sort_mut) = self.buffer.get_mut(root_index) {
                    *root_sort_mut = SortEntry {
                        kind: SortKind::Glyph { glyph_name, advance_width },
                        is_active: true,
                        is_selected: true,
                        layout_mode: SortLayoutMode::Text,
                        root_position: kept_root_position,
                        buffer_index: None,
                        is_buffer_root: true,
                        buffer_cursor_position: Some(1),
                    };
                }
                return;
            }
            let new_sort = SortEntry {
                kind: SortKind::Glyph { glyph_name, advance_width },
                is_active: false,
                is_selected: false,
                layout_mode: SortLayoutMode::Text,
                root_position: Vec2Bits::zero(),
                buffer_index: None,
                is_buffer_root: false,
                buffer_cursor_position: None,
            };
            self.buffer.insert(root_index + cursor, new_sort);
            if let Some(root_sort) = self.buffer.get_mut(root_index) {
                root_sort.buffer_cursor_position = Some(cursor + 1);
            }
            proof {
                let s1 = insert_or_keep(s, root_index + cursor, typed_glyph(glyph_name, advance_width));
                assert(self.sorts() =~= with_cursor(s1, root_index as int, (cursor + 1) as nat));
            }
        } else {
            let default_position = Vec2Bits { x: F32Bits(DEFAULT_ROOT_X), y: F32Bits(0) };
            self.create_text_root_with_glyph(glyph_name, advance_width, default_position);
        }
    }

    /// Start a new text buffer whose root is the glyph `glyph_name` at
    /// `world_position`, deactivating and deselecting every other sort.
    pub fn create_text_root_with_glyph(
        &mut self,
        glyph_name: String,
        advance_width: F32Bits,
        world_position: Vec2Bits,
    )
        requires
            old(self).wf(),
            old(self).buffer.has_room_for(1),
        ensures
            final(self).wf(),
            final(self).same_settings(*old(self)),
            final(self).sorts() == after_root_with_glyph(
                old(self).sorts(),
                glyph_name,
                advance_width,
                world_position,
            ),
    {
        self.clear_all_states();
        let new_root = SortEntry {
            kind: SortKind::Glyph { glyph_name, advance_width },
            is_active: true,
            is_selected: true,
            layout_mode: SortLayoutMode::Text,
            root_position: world_position,
            buffer_index: None,
            is_buffer_root: true,
            buffer_cursor_position: Some(1),
        };
        let insert_index = self.buffer.len();
        self.buffer.insert(insert_index, new_root);
    }

    /// Delete the glyph before the active buffer's cursor: the entry at the
    /// root's index plus the cursor minus one; the cursor moves back.  Nothing
    /// happens at the start of the line or without a buffer root.
    pub fn delete_sort_at_cursor(&mut self)
        requires
            old(self).wf(),
            cursor_arithmetic_fits(old(self).sorts()),
        ensures
            final(self).wf(),
            final(self).same_settings(*old(self)),
            final(self).sorts() == after_delete_at_cursor(old(self).sorts()),
    {
        let ghost s = self.sorts();
        if let Some(root_index) = self.find_active_buffer_root_index() {
            let cursor = match self.buffer.get(root_index).unwrap().buffer_cursor_position {
                Some(c) => c,
                None => 0,
            };
            if cursor == 0 {
                return;
            }
            let delete_index = root_index + cursor - 1;
            let _ = self.buffer.delete(delete_index);
            let ghost s1 = self.sorts();
            if let Some(root_sort) = self.buffer.get_mut(root_index) {
                root_sort.buffer_cursor_position = Some(cursor - 1);
            }
            proof {
                assert(self.sorts() =~= with_cursor(s1, root_index as int, (cursor - 1) as nat));
            }
        }
    }

    /// Insert a line break at the active buffer's cursor and move the cursor
    /// after it (Enter key).
    pub fn insert_line_break_at_cursor(&mut self)
        requires
            old(self).wf(),
            old(self).buffer.has_room_for(1),
            cursor_arithmetic_fits(old(self).sorts()),
        ensures
            final(self).wf(),
            final(self).same_settings(*old(self)),
            final(self).sorts() == after_line_break_at_cursor(old(self).sorts()),
    {
        let ghost s = self.sorts();
        if let Some(root_index) = self.find_active_buffer_root_index() {
            let cursor = match self.buffer.get(root_index).unwrap().buffer_cursor_position {
                Some(c) => c,
                None => 0,
            };
            let new_sort = SortEntry {
                kind: SortKind::LineBreak,
                is_active: false,
                is_selected: false,
                layout_mode: SortLayoutMode::Text,
                root_position: Vec2Bits::zero(),
                buffer_index: None,
                is_buffer_root: false,
                buffer_cursor_position: None,
            };
            self.buffer.insert(root_index + cursor, new_sort);
            let ghost s1 = self.sorts();
            if let Some(root_sort) = self.buffer.get_mut(root_index) {
                root_sort.buffer_cursor_position = Some(cursor + 1);
            }
            proof {
                assert(self.sorts() =~= with_cursor(s1, root_index as int, (cursor + 1) as nat));
            }
        }
    }

    /// Create a new text root at `world_position`: an empty placeholder,
    /// active and selected, cursor at the start, appended after every other
    /// sort (which are all deactivated and deselected).
    pub fn create_text_root(&mut self, world_position: Vec2Bits)
        requires
            old(self).wf(),
            old(self).buffer.has_room_for(1),
        ensures
            final(self).wf(),
            final(self).same_settings(*old(self)),
            exists|name: String|
                name@ == Seq::<char>::empty() && final(self).sorts() == after_text_root(
                    old(self).sorts(),
                    world_position,
                    name,
                ),
    {
        self.clear_all_states();
        let index = self.buffer.len();
        let text_root = SortEntry {
            kind: SortKind::Glyph { glyph_name: String::new(), advance_width: F32Bits(0) },
            is_active: true,
            is_selected: true,
            layout_mode: SortLayoutMode::Text,
            root_position: world_position,
            buffer_index: Some(index),
            is_buffer_root: true,
            buffer_cursor_position: Some(0),
        };
        self.buffer.insert(index, text_root);
        proof {
            let name = self.sorts().last().kind->glyph_name;
            assert(self.sorts() =~= after_text_root(old(self).sorts(), world_position, name));
        }
    }

    /// Add a freeform glyph at `position`, active and selected, after every
    /// other sort (which are all deactivated and deselected).
    pub fn add_freeform_sort(&mut self, glyph_name: String, position: Vec2Bits, advance_width: F32Bits)
        requires
            old(self).wf(),
            old(self).buffer.has_room_for(1),
        ensures
            final(self).wf(),
            final(self).same_settings(*old(self)),
            final(self).sorts() == after_freeform_sort(old(self).sorts(), glyph_name, position, advance_width),
    {
        self.clear_all_states();
        let new_sort = SortEntry {
            kind: SortKind::Glyph { glyph_name, advance_width },
            is_active: true,
            is_selected: true,
            layout_mode: SortLayoutMode::Freeform,
            root_position: position,
            buffer_index: None,
            is_buffer_root: false,
            buffer_cursor_position: None,
        };
        let insert_index = self.buffer.len();
        self.buffer.insert(insert_index, new_sort);
    }

    /// Turn the sort at `buffer_position` into a freeform sort at
    /// `freeform_position`; false when there is no sort there.
    pub fn convert_sort_to_freeform(&mut self, buffer_position: usize, freeform_position: Vec2Bits) -> (r: bool)
        requires
            old(self).wf(),
        ensures
            final(self).wf(),
            final(self).same_settings(*old(self)),
            r == (buffer_position < old(self).sorts().len()),
            final(self).sorts() == (if r {
                old(self).sorts().update(
                    buffer_position as int,
                    SortEntry {
                        layout_mode: SortLayoutMode::Freeform,
                        root_position: freeform_position,
                        buffer_index: None,
                        ..old(self).sorts()[buffer_position as int]
                    },
                )
            } else {
                old(self).sorts()
            }),
    {
        if let Some(sort) = self.buffer.get_mut(buffer_position) {
            sort.layout_mode = SortLayoutMode::Freeform;
            sort.root_position = freeform_position;
            sort.buffer_index = None;
            true
        } else {
            false
        }
    }

    /// Turn the sort at `buffer_position` into a text sort with buffer index
    /// `new_buffer_index`; false when there is no sort there.
    pub fn convert_sort_to_text(&mut self, buffer_position: usize, new_buffer_index: usize) -> (r: bool)
        requires
            old(self).wf(),
        ensures
            final(self).wf(),
            final(self).same_settings(*old(self)),
            r == (buffer_position < old(self).sorts().len()),
            final(self).sorts() == (if r {
                old(self).sorts().update(
                    buffer_position as int,
                    SortEntry {
                        layout_mode: SortLayoutMode::Text,
                        root_position: Vec2Bits::spec_zero(),
                        buffer_index: Some(new_buffer_index),
                        ..old(self).sorts()[buffer_position as int]
                    },
                )
            } else {
                old(self).sorts()
            }),
    {
        if let Some(sort) = self.buffer.get_mut(buffer_position) {
            sort.layout_mode = SortLayoutMode::Text;
            sort.root_position = Vec2Bits::zero();
            sort.buffer_index = Some(new_buffer_index);
            true
        } else {
            false
        }
    }

    /// Start a new line at the active buffer's cursor: a line break there,
    /// then a new empty root (at `new_root_position`, active and selected,
    /// cursor at the start) right after it; the old root is deactivated and
    /// deselected.  The caller computes the new root's position from the
    /// font metrics.
    pub fn create_new_line(&mut self, new_root_position: Vec2Bits)
        requires
            old(self).wf(),
            old(self).buffer.has_room_for(2),
            cursor_arithmetic_fits(old(self).sorts()),
        ensures
            final(self).wf(),
            final(self).same_settings(*old(self)),
            active_root(old(self).sorts()) is None ==> final(self).sorts() == old(self).sorts(),
            active_root(old(self).sorts()) is Some ==> exists|name: String|
                name@ == Seq::<char>::empty() && final(self).sorts() == after_new_line(
                    old(self).sorts(),
                    new_root_position,
                    name,
                ),
    {
        let ghost s = self.sorts();
        if let Some(root_index) = self.find_active_buffer_root_index() {
            let cursor = match self.buffer.get(root_index).unwrap().buffer_cursor_position {
                Some(c) => c,
                None => 0,
            };
            let line_break = SortEntry {
                kind: SortKind::LineBreak,
                is_active: false,
                is_selected: false,
                layout_mode: SortLayoutMode::Text,
                root_position: Vec2Bits::zero(),
                buffer_index: None,
                is_buffer_root: false,
                buffer_cursor_position: None,
            };
            let insert_index = root_index + cursor;
            self.buffer.insert(insert_index, line_break);
            let name = String::new();
            let ghost name_ghost = name;
            let new_root = SortEntry {
                kind: SortKind::Glyph { glyph_name: name, advance_width: F32Bits(0) },
                is_active: true,
                is_selected: true,
                layout_mode: SortLayoutMode::Text,
                root_position: new_root_position,
                buffer_index: Some(insert_index + 1),
                is_buffer_root: true,
                buffer_cursor_position: Some(0),
            };
            self.buffer.insert(insert_index + 1, new_root);
            let ghost s2 = self.sorts();
            if let Some(root_sort) = self.buffer.get_mut(root_index) {
                root_sort.is_selected = false;
                root_sort.is_active = false;
            }
            proof {
                assert(self.sorts() =~= after_new_line(s, new_root_position, name_ghost));
            }
        }
    }

    /// Move up to the previous text buffer: the current root is deselected
    /// and the nearest root before it selected, with its cursor at the end of
    /// its sequence.
    pub fn move_cursor_up(&mut self)
        requires
            old(self).wf(),
        ensures
            final(self).wf(),
            final(self).same_settings(*old(self)),
            final(self).sorts() == after_cursor_up(old(self).sorts()),
    {
        let ghost s = self.sorts();
        if let Some(current_root_index) = self.find_active_buffer_root_index() {
            let mut i: usize = current_root_index;
            while i > 0
                invariant
                    self.wf(),
                    self.same_settings(*old(self)),
                    s == self.sorts(),
                    s == old(self).sorts(),
                    i <= current_root_index < s.len(),
                    active_root(s) == Some(current_root_index as int),
                    last_root_before(s, current_root_index as int) == last_root_before(s, i as int),
                decreases i,
            {
                let is_root = self.buffer.get(i - 1).unwrap().is_buffer_root;
                if is_root {
                    let p = i - 1;
                    if let Some(current_root) = self.buffer.get_mut(current_root_index) {
                        current_root.is_selected = false;
                    }
                    proof {
                        lemma_sequence_length_same_layout(s, self.sorts(), p as int, p as int);
                    }
                    let buffer_length = self.get_buffer_sequence_length(p);
                    let ghost s1 = self.sorts();
                    if let Some(prev_root) = self.buffer.get_mut(p) {
                        prev_root.is_selected = true;
                        prev_root.buffer_cursor_position = Some(buffer_length);
                    }
                    proof {
                        assert(last_root_before(s, current_root_index as int) == Some(p as int));
                        assert(s1 =~= s.update(
                            current_root_index as int,
                            SortEntry { is_selected: false, ..s[current_root_index as int] },
                        ));
                        assert(self.sorts() =~= after_cursor_up(s));
                    }
                    return;
                }
                i = i - 1;
            }
        }
    }

    /// Move down to the next text buffer: the current root is deselected and
    /// the nearest root after it selected, with its cursor at the start.
    pub fn move_cursor_down(&mut self)
        requires
            old(self).wf(),
        ensures
            final(self).wf(),
            final(self).same_settings(*old(self)),
            final(self).sorts() == after_cursor_down(old(self).sorts()),
    {
        let ghost s = self.sorts();
        if let Some(current_root_index) = self.find_active_buffer_root_index() {
            let n = self.buffer.len();
            let mut i: usize = current_root_index + 1;
            while i < n
                invariant
                    self.wf(),
                    self.same_settings(*old(self)),
                    s == self.sorts(),
                    n == s.len(),
                    s == old(self).sorts(),
                    current_root_index < i <= n,
                    active_root(s) == Some(current_root_index as int),
                    first_from(s, |e: SortEntry| e.is_buffer_root, current_root_index + 1)
                        == first_from(s, |e: SortEntry| e.is_buffer_root, i as int),
                decreases n - i,
            {
                let is_root = self.buffer.get(i).unwrap().is_buffer_root;
                if is_root {
                    if let Some(current_root) = self.buffer.get_mut(current_root_index) {
                        current_root.is_selected = false;
                    }
                    let ghost s1 = self.sorts();
                    if let Some(next_root) = self.buffer.get_mut(i) {
                        next_root.is_selected = true;
                        next_root.buffer_cursor_position = Some(0);
                    }
                    proof {
                        assert(first_from(s, |e: SortEntry| e.is_buffer_root, current_root_index + 1)
                            == Some(i as int));
                        assert(s1 =~= s.update(
                            current_root_index as int,
                            SortEntry { is_selected: false, ..s[current_root_index as int] },
                        ));
                        assert(self.sorts() =~= after_cursor_down(s));
                    }
                    return;
                }
                i = i + 1;
            }
        }
    }

    /// Text tool click: start a text root at `world_position` when there is
    /// no buffer root yet, then type the glyph at the cursor.
    pub fn create_text_sort_at_position(
        &mut self,
        glyph_name: String,
        world_position: Vec2Bits,
        advance_width: F32Bits,
    )
        requires
            old(self).wf(),
            old(self).buffer.has_room_for(2),
            cursor_arithmetic_fits(old(self).sorts()),
        ensures
            final(self).wf(),
            final(self).same_settings(*old(self)),
            active_root(old(self).sorts()) is Some ==> final(self).sorts() == after_insert_at_cursor(
                old(self).sorts(),
                glyph_name,
                advance_width,
            ),
            active_root(old(self).sorts()) is None ==> exists|name: String|
                name@ == Seq::<char>::empty() && final(self).sorts() == after_insert_at_cursor(
                    after_text_root(old(self).sorts(), world_position, name),
                    glyph_name,
                    advance_width,
                ),
    {
        let ghost s = self.sorts();
        if self.find_active_buffer_root_index().is_none() {
            self.create_text_root(world_position);
            proof {
                let name = choose|name: String|
                    name@ == Seq::<char>::empty() && self.sorts() == after_text_root(
                        s,
                        world_position,
                        name,
                    );
                lemma_new_root_is_active(s, world_position, name);
            }
            self.insert_sort_at_cursor(glyph_name, advance_width);
        } else {
            self.insert_sort_at_cursor(glyph_name, advance_width);
        }
    }

    /// How to place the text sort at `buffer_position` in its flow: find the
    /// nearest text root at or before it; the root sits at its own position,
    /// any later sort is offset by the advances since the last line break and
    /// by one line per line break.  `None` for a missing sort, a freeform
    /// sort, or a text sort with no root before it.
    pub fn text_flow_plan(&self, buffer_position: usize) -> (r: Option<FlowPlan>)
        requires
            self.wf(),
        ensures
            match r {
                Some(plan) => spec_flow_plan(self.sorts(), buffer_position as int) == Some(plan.plan_view()),
                None => spec_flow_plan(self.sorts(), buffer_position as int) is None,
            },
    {
        let ghost s = self.sorts();
        let n = self.buffer.len();
        if buffer_position >= n {
            return None;
        }
        if self.buffer.get(buffer_position).unwrap().layout_mode != SortLayoutMode::Text {
            return None;
        }
        let mut i: usize = buffer_position + 1;
        while i > 0
            invariant
                self.wf(),
                s == self.sorts(),
                n == s.len(),
                buffer_position < n,
                s[buffer_position as int].layout_mode == SortLayoutMode::Text,
                0 <= i <= buffer_position + 1,
                last_text_root_before(s, buffer_position + 1) == last_text_root_before(s, i as int),
            decreases i,
        {
            let candidate = self.buffer.get(i - 1).unwrap();
            if candidate.is_buffer_root && candidate.layout_mode == SortLayoutMode::Text {
                let root = i - 1;
                if root == buffer_position {
                    return Some(FlowPlan::Root { root_index: root });
                }
                let mut advances: Vec<usize> = Vec::new();
                if candidate.kind.is_glyph() && !candidate.kind.glyph_name().is_empty() {
                    advances.push(root);
                }
                let mut line_breaks: usize = 0;
                let mut j: usize = root + 1;
                while j < buffer_position
                    invariant
                        self.wf(),
                        s == self.sorts(),
                        root < j <= buffer_position < s.len(),
                        line_breaks <= j - root,
                        advances@.map_values(|k: usize| k as int) == flow_advances(
                            s,
                            root as int,
                            j as int,
                        ),
                        line_breaks == flow_line_breaks(s, root as int, j as int),
                    decreases buffer_position - j,
                {
                    if self.buffer.get(j).unwrap().kind.is_line_break() {
                        advances = Vec::new();
                        line_breaks = line_breaks + 1;
                    } else {
                        advances.push(j);
                    }
                    proof {
                        assert(advances@.map_values(|k: usize| k as int) =~= flow_advances(
                            s,
                            root as int,
                            j + 1,
                        ));
                    }
                    j = j + 1;
                }
                return Some(
                    FlowPlan::Offset { root_index: root, advance_indices: advances, line_breaks },
                );
            }
            i = i - 1;
        }
        None
    }

    /// Line structure of the active text buffer: its root, cursor, the
    /// starts of its lines (one per line break after the root) and the line
    /// the cursor is on; `None` without a buffer root.
    pub fn multiline_cursor(&self) -> (r: Option<MultilineCursor>)
        requires
            self.wf(),
        ensures
            r is Some == active_root(self.sorts()) is Some,
            r matches Some(m) ==> {
                &&& active_root(self.sorts()) == Some(m.root_index as int)
                &&& m.cursor == cursor_of(self.sorts(), m.root_index as int)
                &&& m.line_starts@.map_values(|x: usize| x as nat) == line_starts_upto(
                    self.sorts(),
                    m.root_index as int,
                    self.sorts().len() as int,
                )
                &&& m.current_line == scan_line(
                    line_starts_upto(self.sorts(), m.root_index as int, self.sorts().len() as int),
                    m.cursor as nat,
                    0,
                    0,
                )
                &&& m.current_line < m.line_starts@.len()
                &&& m.offsets_len == self.sorts().len() - m.root_index
            },
    {
        let ghost s = self.sorts();
        let root_index = match self.find_active_buffer_root_index() {
            Some(r) => r,
            None => return None,
        };
        let cursor = match self.buffer.get(root_index).unwrap().buffer_cursor_position {
            Some(c) => c,
            None => 0,
        };
        let n = self.buffer.len();
        let mut line_starts: Vec<usize> = Vec::new();
        line_starts.push(0);
        let mut i: usize = root_index + 1;
        while i < n
            invariant
                self.wf(),
                s == self.sorts(),
                n == s.len(),
                root_index < i <= n,
                line_starts@.map_values(|x: usize| x as nat) == line_starts_upto(
                    s,
                    root_index as int,
                    i as int,
                ),
            decreases n - i,
        {
            if self.buffer.get(i).unwrap().kind.is_line_break() {
                line_starts.push(i - root_index);
            }
            proof {
                assert(line_starts@.map_values(|x: usize| x as nat) =~= line_starts_upto(
                    s,
                    root_index as int,
                    i + 1,
                ));
            }
            i = i + 1;
        }
        proof {
            assert(line_starts@.map_values(|x: usize| x as nat) =~= line_starts_upto(
                s,
                root_index as int,
                n as int,
            ));
        }
        let ghost starts = line_starts_upto(s, root_index as int, n as int);
        proof {
            lemma_line_starts_nonempty(s, root_index as int, n as int);
        }
        let mut current_line: usize = 0;
        let mut k: usize = 0;
        let count = line_starts.len();
        while k < count
            invariant
                count == line_starts@.len(),
                line_starts@.map_values(|x: usize| x as nat) == starts,
                0 <= k <= count,
                current_line < count,
                k > 0 ==> current_line == k - 1,
                k == 0 ==> current_line == 0,
                scan_line(starts, cursor as nat, 0, 0) == scan_line(
                    starts,
                    cursor as nat,
                    k as int,
                    current_line as int,
                ),
            ensures
                current_line < count,
                scan_line(starts, cursor as nat, 0, 0) == current_line as int,
            decreases count - k,
        {
            assert(starts[k as int] == line_starts@[k as int] as nat);
            if cursor < line_starts[k] {
                break;
            }
            current_line = k;
            k = k + 1;
        }
        Some(
            MultilineCursor {
                root_index,
                cursor,
                line_starts,
                current_line,
                offsets_len: n - root_index,
            },
        )
    }

    /// Set the cursor of the buffer root at `root_index` to `value`.
    pub fn set_buffer_cursor(&mut self, root_index: usize, value: usize)
        requires
            old(self).wf(),
            root_index < old(self).sorts().len(),
        ensures
            final(self).wf(),
            final(self).same_settings(*old(self)),
            final(self).sorts() == with_cursor(old(self).sorts(), root_index as int, value as nat),
    {
        self.set_cursor_at(root_index, value);
    }
}

/// Sequences that agree on a predicate at every position agree on its first
/// match.
proof fn lemma_first_from_same_pred(
    a: Seq<SortEntry>,
    b: Seq<SortEntry>,
    pred: spec_fn(SortEntry) -> bool,
    i: int,
)
    requires
        a.len() == b.len(),
        forall|k: int| 0 <= k < a.len() ==> pred(#[trigger] a[k]) == pred(b[k]),
    ensures
        first_from(a, pred, i) == first_from(b, pred, i),
    decreases a.len() - i,
{
    if 0 <= i < a.len() {
        lemma_first_from_same_pred(a, b, pred, i + 1);
    }
}

/// The first match is a match, and nothing before it (from `i`) matches.
proof fn lemma_first_from_spec(s: Seq<SortEntry>, pred: spec_fn(SortEntry) -> bool, i: int)
    requires
        0 <= i,
    ensures
        first_from(s, pred, i) matches Some(r) ==> i <= r < s.len() && pred(s[r]) && forall|k: int|
            i <= k < r ==> !pred(#[trigger] s[k]),
        first_from(s, pred, i) is None ==> forall|k: int| i <= k < s.len() ==> !pred(#[trigger] s[k]),
    decreases s.len() - i,
{
    if i < s.len() {
        lemma_first_from_spec(s, pred, i + 1);
    }
}

/// A match with nothing matching before it (from `i`) is the first match.
proof fn lemma_first_from_is(s: Seq<SortEntry>, pred: spec_fn(SortEntry) -> bool, i: int, r: int)
    requires
        0 <= i <= r < s.len(),
        pred(s[r]),
        forall|k: int| i <= k < r ==> !pred(#[trigger] s[k]),
    ensures
        first_from(s, pred, i) == Some(r),
{
    lemma_first_from_skip(s, pred, i, r);
}

/// The last root before `n` is a root, and no root follows it before `n`.
proof fn lemma_last_root_spec(s: Seq<SortEntry>, n: int)
    requires
        0 <= n <= s.len(),
    ensures
        last_root_before(s, n) matches Some(r) ==> 0 <= r < n && s[r].is_buffer_root && forall|k: int|
            r < k < n ==> !(#[trigger] s[k]).is_buffer_root,
        last_root_before(s, n) is None ==> forall|k: int| 0 <= k < n ==> !(#[trigger] s[k]).is_buffer_root,
    decreases n,
{
    if n > 0 {
        lemma_last_root_spec(s, n - 1);
    }
}

/// A root with no root after it before `n` is the last root before `n`.
proof fn lemma_last_root_is(s: Seq<SortEntry>, n: int, r: int)
    requires
        0 <= r < n <= s.len(),
        s[r].is_buffer_root,
        forall|k: int| r < k < n ==> !(#[trigger] s[k]).is_buffer_root,
    ensures
        last_root_before(s, n) == Some(r),
    decreases n,
{
    if n - 1 > r {
        lemma_last_root_is(s, n - 1, r);
    }
}

/// The active root is a root inside the sequence, and how it was chosen.
proof fn lemma_active_root_spec(s: Seq<SortEntry>)
    ensures
        active_root(s) matches Some(r) ==> 0 <= r < s.len() && s[r].is_buffer_root,
        active_root(s) is None ==> forall|k: int| 0 <= k < s.len() ==> !(#[trigger] s[k]).is_buffer_root,
{
    lemma_first_from_spec(s, |e: SortEntry| selected_root(e), 0);
    lemma_first_from_spec(s, |e: SortEntry| root_with_cursor(e), 0);
    lemma_last_root_spec(s, s.len() as int);
}

/// Giving the active root a cursor keeps it the active root.
proof fn lemma_active_root_after_cursor(s: Seq<SortEntry>, r: int, c: nat)
    requires
        active_root(s) == Some(r),
    ensures
        active_root(with_cursor(s, r, c)) == Some(r),
{
    lemma_active_root_spec(s);
    let t = with_cursor(s, r, c);
    let sel = |e: SortEntry| selected_root(e);
    let cur = |e: SortEntry| root_with_cursor(e);
    lemma_first_from_same_pred(s, t, sel, 0);
    lemma_first_from_spec(s, sel, 0);
    lemma_first_from_spec(s, cur, 0);
    if first_from(s, sel, 0) is None {
        match first_from(s, cur, 0) {
            Some(q) => {
                assert(q == r);
                lemma_first_from_is(t, cur, 0, r);
            },
            None => {
                lemma_last_root_spec(s, s.len() as int);
                lemma_first_from_is(t, cur, 0, r);
            },
        }
    }
}

/// Inserting, after the active root, an entry that is neither a root nor
/// selected keeps the active root.
proof fn lemma_active_root_after_insert(s: Seq<SortEntry>, r: int, j: int, e: SortEntry)
    requires
        active_root(s) == Some(r),
        r < j <= s.len(),
        !e.is_buffer_root,
    ensures
        active_root(s.insert(j, e)) == Some(r),
{
    lemma_active_root_spec(s);
    let t = s.insert(j, e);
    let sel = |x: SortEntry| selected_root(x);
    let cur = |x: SortEntry| root_with_cursor(x);
    lemma_first_from_spec(s, sel, 0);
    lemma_first_from_spec(s, cur, 0);
    assert forall|k: int| 0 <= k <= r implies #[trigger] t[k] == s[k] by {}
    match first_from(s, sel, 0) {
        Some(q) => {
            assert(q == r);
            lemma_first_from_is(t, sel, 0, r);
        },
        None => {
            assert forall|k: int| 0 <= k < t.len() implies !sel(#[trigger] t[k]) by {
                if k > j {
                    assert(t[k] == s[k - 1]);
                } else if k < j {
                    assert(t[k] == s[k]);
                }
            }
            lemma_first_from_spec(t, sel, 0);
            lemma_first_from_skip(t, sel, 0, t.len() as int);
            match first_from(s, cur, 0) {
                Some(q) => {
                    assert(q == r);
                    lemma_first_from_is(t, cur, 0, r);
                },
                None => {
                    assert forall|k: int| 0 <= k < t.len() implies !cur(#[trigger] t[k]) by {
                        if k > j {
                            assert(t[k] == s[k - 1]);
                        } else if k < j {
                            assert(t[k] == s[k]);
                        }
                    }
                    lemma_first_from_skip(t, cur, 0, t.len() as int);
                    lemma_last_root_spec(s, s.len() as int);
                    assert forall|k: int| r < k < t.len() implies !(#[trigger] t[k]).is_buffer_root by {
                        if k > j {
                            assert(t[k] == s[k - 1]);
                        } else if k < j {
                            assert(t[k] == s[k]);
                        }
                    }
                    lemma_last_root_is(t, t.len() as int, r);
                },
            }
        },
    }
}

/// Typing a glyph into a text buffer and then pressing backspace restores
/// every sort, when the cursor is past the root (not at its start), inside
/// the buffer, and the root is not an empty placeholder.
pub proof fn lemma_backspace_undoes_typing(s: Seq<SortEntry>, glyph_name: String, advance_width: F32Bits)
    requires
        active_root(s) matches Some(r) && !is_placeholder_root(s[r]) && 1 <= cursor_of(s, r) && r
            + cursor_of(s, r) <= s.len(),
        cursor_arithmetic_fits(s),
    ensures
        after_delete_at_cursor(after_insert_at_cursor(s, glyph_name, advance_width)) == s,
{
    lemma_active_root_spec(s);
    let r = active_root(s)->0;
    let c = cursor_of(s, r);
    let e = typed_glyph(glyph_name, advance_width);
    let s1 = s.insert(r + c, e);
    lemma_active_root_after_insert(s, r, r + c, e);
    assert(s1[r] == s[r]);
    let s2 = with_cursor(s1, r, c + 1);
    lemma_active_root_after_cursor(s1, r, c + 1);
    assert(after_insert_at_cursor(s, glyph_name, advance_width) == s2);
    assert(s2[r].buffer_cursor_position == Some((c + 1) as usize));
    assert(cursor_of(s2, r) == c + 1);
    let s3 = s2.remove(r + c);
    assert(s3 =~= with_cursor(s, r, c + 1));
    assert(s[r].buffer_cursor_position == Some(c as usize));
    assert(with_cursor(s3, r, c) =~= s);
}

/// Moving the cursor right and then left restores every sort, when the
/// active buffer has a cursor short of the end of its sequence.
pub proof fn lemma_cursor_right_then_left(s: Seq<SortEntry>)
    requires
        active_root(s) matches Some(r) && s[r].buffer_cursor_position is Some && cursor_of(s, r)
            < sequence_length(s, r),
        cursor_arithmetic_fits(s),
    ensures
        after_cursor_left(after_cursor_right(s)) == s,
{
    lemma_active_root_spec(s);
    let r = active_root(s)->0;
    let c = cursor_of(s, r);
    let s1 = with_cursor(s, r, c + 1);
    lemma_active_root_after_cursor(s, r, c + 1);
    assert(after_cursor_right(s) == s1);
    assert(s1[r].buffer_cursor_position == Some((c + 1) as usize));
    assert(cursor_of(s1, r) == c + 1);
    assert(after_cursor_left(s1) == with_cursor(s1, r, c));
    assert(with_cursor(s1, r, c) =~= s);
}

/// After `activate_sort(position)` on an existing sort, exactly that sort
/// is active.
pub proof fn lemma_activate_sort_single(s: Seq<SortEntry>, position: int)
    requires
        0 <= position < s.len(),
    ensures
        ({
            let t = flags_reset(s, true, false).update(
                position,
                SortEntry { is_active: true, ..flags_reset(s, true, false)[position] },
            );
            forall|k: int| 0 <= k < t.len() ==> (#[trigger] t[k].is_active <==> k == position)
        }),
{
}

/// Creating a sort (a freeform sort, an empty text root, or a text root
/// holding a glyph) makes the new sort, appended last, the only active and
/// the only selected one.
pub proof fn lemma_creation_activates_only_new_sort(
    s: Seq<SortEntry>,
    name: String,
    pos: Vec2Bits,
    aw: F32Bits,
)
    ensures
        ({
            let t = after_freeform_sort(s, name, pos, aw);
            &&& t.len() == s.len() + 1
            &&& forall|k: int| 0 <= k < t.len() ==> (#[trigger] t[k].is_active <==> k == s.len())
            &&& forall|k: int| 0 <= k < t.len() ==> (#[trigger] t[k].is_selected <==> k == s.len())
        }),
        ({
            let t = after_text_root(s, pos, name);
            &&& t.len() == s.len() + 1
            &&& forall|k: int| 0 <= k < t.len() ==> (#[trigger] t[k].is_active <==> k == s.len())
            &&& forall|k: int| 0 <= k < t.len() ==> (#[trigger] t[k].is_selected <==> k == s.len())
            &&& active_root(t) == Some(s.len() as int)
        }),
        ({
            let t = after_root_with_glyph(s, name, aw, pos);
            &&& t.len() == s.len() + 1
            &&& forall|k: int| 0 <= k < t.len() ==> (#[trigger] t[k].is_active <==> k == s.len())
            &&& forall|k: int| 0 <= k < t.len() ==> (#[trigger] t[k].is_selected <==> k == s.len())
        }),
{
    lemma_new_root_is_active(s, pos, name);
}

/// Pressing Enter and then Backspace restores every sort, when the cursor
/// is past the root and inside the buffer.
pub proof fn lemma_backspace_undoes_line_break(s: Seq<SortEntry>)
    requires
        active_root(s) matches Some(r) && 1 <= cursor_of(s, r) && r + cursor_of(s, r) <= s.len(),
        cursor_arithmetic_fits(s),
    ensures
        after_delete_at_cursor(after_line_break_at_cursor(s)) == s,
{
    lemma_active_root_spec(s);
    let r = active_root(s)->0;
    let c = cursor_of(s, r);
    let e = line_break_entry();
    let s1 = s.insert(r + c, e);
    lemma_active_root_after_insert(s, r, r + c, e);
    assert(s1[r] == s[r]);
    let s2 = with_cursor(s1, r, c + 1);
    lemma_active_root_after_cursor(s1, r, c + 1);
    assert(after_line_break_at_cursor(s) == s2);
    assert(s2[r].buffer_cursor_position == Some((c + 1) as usize));
    assert(cursor_of(s2, r) == c + 1);
    let s3 = s2.remove(r + c);
    assert(s3 =~= with_cursor(s, r, c + 1));
    assert(s[r].buffer_cursor_position == Some(c as usize));
    assert(with_cursor(s3, r, c) =~= s);
}


/// Moving up goes to the previous buffer: when a buffer root lies before the
/// active one, the root that becomes active is the nearest root before it
/// (no root lies between the two), and its cursor stands at the end of its
/// text; no other sort changes.  With no root before the active one,
/// nothing changes.
pub proof fn lemma_cursor_up_goes_to_previous_root(s: Seq<SortEntry>)
    requires
        active_root(s) is Some,
    ensures
        ({
            let r = active_root(s)->0;
            let t = after_cursor_up(s);
            if exists|k: int| 0 <= k < r && (#[trigger] s[k]).is_buffer_root {
                &&& active_root(t) matches Some(p) && 0 <= p < r && s[p].is_buffer_root
                    && (forall|k: int| p < k < r ==> !(#[trigger] s[k]).is_buffer_root)
                    && t[p].buffer_cursor_position == Some(sequence_length(s, p) as usize)
                    && !t[r].is_selected
                    && t.len() == s.len()
                    && (forall|k: int| 0 <= k < s.len() && k != p && k != r ==> #[trigger] t[k] == s[k])
            } else {
                t == s
            }
        }),
{
    lemma_active_root_spec(s);
    let r = active_root(s)->0;
    lemma_last_root_spec(s, r);
    let t = after_cursor_up(s);
    if exists|k: int| 0 <= k < r && (#[trigger] s[k]).is_buffer_root {
        let k0 = choose|k: int| 0 <= k < r && (#[trigger] s[k]).is_buffer_root;
        assert(last_root_before(s, r) is Some);
        let p = last_root_before(s, r)->0;
        let sel = |e: SortEntry| selected_root(e);
        lemma_first_from_spec(s, sel, 0);
        assert forall|k: int| 0 <= k < p implies !sel(#[trigger] t[k]) by {
            assert(t[k] == s[k]);
            if first_from(s, sel, 0) is Some {
                assert(first_from(s, sel, 0) == Some(r));
            }
        }
        assert(sel(t[p]));
        lemma_first_from_is(t, sel, 0, p);
        assert(active_root(t) == Some(p));
    } else {
        assert(last_root_before(s, r) is None) by {
            if last_root_before(s, r) is Some {
                let p = last_root_before(s, r)->0;
                assert(s[p].is_buffer_root);
            }
        }
    }
}

/// The last text root before `n` lies before `n`.
proof fn lemma_last_text_root_range(s: Seq<SortEntry>, n: int)
    ensures
        last_text_root_before(s, n) matches Some(r) ==> 0 <= r < n && r < s.len(),
    decreases n,
{
    if 0 < n <= s.len() && !(s[n - 1].is_buffer_root && s[n - 1].layout_mode
        == SortLayoutMode::Text) {
        lemma_last_text_root_range(s, n - 1);
    }
}

proof fn lemma_line_breaks_count(s: Seq<SortEntry>, root: int, j: int)
    requires
        0 <= root < j <= s.len(),
    ensures
        flow_line_breaks(s, root, j) == s.subrange(root + 1, j).filter(
            |e: SortEntry| e.kind is LineBreak,
        ).len(),
    decreases j - root,
{
    let pred = |e: SortEntry| e.kind is LineBreak;
    if j <= root + 1 {
        assert(s.subrange(root + 1, j) =~= Seq::<SortEntry>::empty());
        assert(Seq::<SortEntry>::empty().filter(pred) =~= Seq::<SortEntry>::empty()) by {
            reveal(Seq::filter);
        }
    } else {
        lemma_line_breaks_count(s, root, j - 1);
        assert(s.subrange(root + 1, j) =~= s.subrange(root + 1, j - 1).push(s[j - 1]));
        s.subrange(root + 1, j - 1).lemma_filter_len_push(pred, s[j - 1]);
    }
}

/// A text sort is moved down by one line for every line break that lies
/// strictly between its root and itself.
pub proof fn lemma_flow_plan_counts_line_breaks(s: Seq<SortEntry>, p: int)
    ensures
        spec_flow_plan(s, p) matches Some((root, Some((_, line_breaks)))) ==> 0 <= root < p
            && line_breaks == s.subrange(root + 1, p).filter(
            |e: SortEntry| e.kind is LineBreak,
        ).len(),
{
    if 0 <= p < s.len() {
        lemma_last_text_root_range(s, p + 1);
        if let Some((root, Some(_))) = spec_flow_plan(s, p) {
            lemma_line_breaks_count(s, root, p);
        }
    }
}

/// Moving down goes to the next buffer: when a buffer root lies after the
/// active one, the root that becomes active is the nearest root after it
/// (no root lies between the two), with its cursor at the start; no other
/// sort changes.  With no root after the active one, nothing changes.
pub proof fn lemma_cursor_down_goes_to_next_root(s: Seq<SortEntry>)
    requires
        active_root(s) is Some,
    ensures
        ({
            let r = active_root(s)->0;
            let t = after_cursor_down(s);
            if exists|k: int| r < k < s.len() && (#[trigger] s[k]).is_buffer_root {
                &&& active_root(t) matches Some(q) && r < q < s.len() && s[q].is_buffer_root
                    && (forall|k: int| r < k < q ==> !(#[trigger] s[k]).is_buffer_root)
                    && t[q].buffer_cursor_position == Some(0usize)
                    && !t[r].is_selected
                    && t.len() == s.len()
                    && (forall|k: int| 0 <= k < s.len() && k != q && k != r ==> #[trigger] t[k] == s[k])
            } else {
                t == s
            }
        }),
{
    lemma_active_root_spec(s);
    let r = active_root(s)->0;
    let roots = |e: SortEntry| e.is_buffer_root;
    lemma_first_from_spec(s, roots, r + 1);
    let t = after_cursor_down(s);
    if exists|k: int| r < k < s.len() && (#[trigger] s[k]).is_buffer_root {
        let k0 = choose|k: int| r < k < s.len() && (#[trigger] s[k]).is_buffer_root;
        assert(roots(s[k0]));
        let q = first_from(s, roots, r + 1)->0;
        let sel = |e: SortEntry| selected_root(e);
        lemma_first_from_spec(s, sel, 0);
        assert forall|k: int| 0 <= k < q implies !sel(#[trigger] t[k]) by {
            if k != r {
                assert(t[k] == s[k]);
                if k < r && first_from(s, sel, 0) is Some {
                    assert(first_from(s, sel, 0) == Some(r));
                }
                if r < k {
                    assert(!roots(s[k]));
                }
            }
        }
        assert(sel(t[q]));
        lemma_first_from_is(t, sel, 0, q);
        assert(active_root(t) == Some(q));
    }
}

/// No line break lies strictly between `a` and `b`.
pub open spec fn no_line_break_between(s: Seq<SortEntry>, a: int, b: int) -> bool {
    forall|k: int| a < k < b ==> !((#[trigger] s[k]).kind is LineBreak)
}

/// `adv` lists, in increasing order, exactly the sorts whose advances put
/// the sort at `j` in its place on its line: the glyphs after the last line
/// break before `j` (and after the root), and the root itself when it has a
/// name and no line break lies between it and `j`.
pub open spec fn lists_line_advances(s: Seq<SortEntry>, adv: Seq<int>, root: int, j: int) -> bool {
    &&& forall|i: int| 0 <= i < adv.len() ==> root <= #[trigger] adv[i] < j
    &&& forall|i: int|
        0 <= i < adv.len() && #[trigger] adv[i] == root ==> root_advances(s[root])
            && no_line_break_between(s, root, j)
    &&& forall|i: int|
        0 <= i < adv.len() && root < #[trigger] adv[i] ==> s[adv[i]].kind is Glyph
            && no_line_break_between(s, adv[i], j)
    &&& forall|i: int, m: int| 0 <= i < m < adv.len() ==> #[trigger] adv[i] < #[trigger] adv[m]
    &&& forall|k: int|
        root < k < j && (#[trigger] s[k]).kind is Glyph && no_line_break_between(s, k, j)
            ==> adv.contains(k)
    &&& root_advances(s[root]) && no_line_break_between(s, root, j) ==> adv.contains(root)
}

proof fn lemma_flow_advances(s: Seq<SortEntry>, root: int, j: int)
    requires
        0 <= root < j <= s.len(),
    ensures
        lists_line_advances(s, flow_advances(s, root, j), root, j),
    decreases j - root,
{
    let g = flow_advances(s, root, j);
    if j <= root + 1 {
        if root_advances(s[root]) {
            assert(g[0] == root);
        }
    } else if s[j - 1].kind is LineBreak {
        assert(!no_line_break_between(s, root, j));
        assert forall|k: int|
            root < k < j && (#[trigger] s[k]).kind is Glyph implies !no_line_break_between(
            s,
            k,
            j,
        ) by {
            assert(k != j - 1);
            assert(s[j - 1].kind is LineBreak);
        }
    } else {
        lemma_flow_advances(s, root, j - 1);
        let h = flow_advances(s, root, j - 1);
        assert(g == h.push(j - 1));
        assert forall|a: int| root <= a < j - 1 && no_line_break_between(s, a, j - 1)
            implies no_line_break_between(s, a, j) by {
            assert forall|k: int| a < k < j implies !((#[trigger] s[k]).kind is LineBreak) by {
                if k < j - 1 {
                    assert(!(s[k].kind is LineBreak));
                }
            }
        }
        assert forall|a: int| root <= a < j - 1 && no_line_break_between(s, a, j)
            implies no_line_break_between(s, a, j - 1) by {
            assert forall|k: int| a < k < j - 1 implies !((#[trigger] s[k]).kind is LineBreak) by {
                assert(!(s[k].kind is LineBreak));
            }
        }
        assert forall|i: int| 0 <= i < g.len() && root < #[trigger] g[i] implies s[g[i]].kind is Glyph
            && no_line_break_between(s, g[i], j) by {
            if i < h.len() {
                assert(g[i] == h[i]);
            }
        }
        assert forall|i: int| 0 <= i < g.len() && #[trigger] g[i] == root implies root_advances(
            s[root],
        ) && no_line_break_between(s, root, j) by {
            if i < h.len() {
                assert(g[i] == h[i]);
            }
        }
        assert forall|k: int|
            root < k < j && (#[trigger] s[k]).kind is Glyph && no_line_break_between(s, k, j)
                implies g.contains(k) by {
            if k < j - 1 {
                let i = choose|i: int| 0 <= i < h.len() && h[i] == k;
                assert(g[i] == k);
            } else {
                assert(g[h.len() as int] == k);
            }
        }
        if root_advances(s[root]) && no_line_break_between(s, root, j) {
            let i = choose|i: int| 0 <= i < h.len() && h[i] == root;
            assert(g[i] == root);
        }
    }
}

/// Where the flow plan places a text sort: from the nearest text root at or
/// before it, moved right by the advances of exactly the glyphs that come
/// before it on its line (the root's own advance too when the sort is on
/// the root's line and the root has a name), in order.
pub proof fn lemma_flow_plan_line_advances(s: Seq<SortEntry>, p: int)
    requires
        0 <= p < s.len(),
    ensures
        spec_flow_plan(s, p) matches Some((root, shape)) ==> {
            &&& 0 <= root <= p
            &&& s[root].is_buffer_root && s[root].layout_mode == SortLayoutMode::Text
            &&& forall|k: int|
                root < k <= p ==> !((#[trigger] s[k]).is_buffer_root && s[k].layout_mode
                    == SortLayoutMode::Text)
            &&& (shape is None <==> root == p)
            &&& (shape matches Some((adv, _)) ==> lists_line_advances(s, adv, root, p))
        },
{
    lemma_last_text_root_facts(s, p + 1);
    if let Some((root, Some(_))) = spec_flow_plan(s, p) {
        lemma_flow_advances(s, root, p);
    }
}

/// The last text root before `n` is one, and no text root follows it before
/// `n`.
proof fn lemma_last_text_root_facts(s: Seq<SortEntry>, n: int)
    requires
        0 <= n <= s.len(),
    ensures
        last_text_root_before(s, n) matches Some(r) ==> 0 <= r < n && s[r].is_buffer_root
            && s[r].layout_mode == SortLayoutMode::Text && forall|k: int|
            r < k < n ==> !((#[trigger] s[k]).is_buffer_root && s[k].layout_mode
                == SortLayoutMode::Text),
    decreases n,
{
    if n > 0 {
        lemma_last_text_root_facts(s, n - 1);
    }
}

proof fn lemma_scan_line_from(starts: Seq<nat>, cursor: nat, k: int)
    requires
        1 <= k <= starts.len(),
        starts[k - 1] <= cursor,
        forall|i: int, j: int| 0 <= i < j < starts.len() ==> #[trigger] starts[i] < #[trigger] starts[j],
    ensures
        ({
            let l = scan_line(starts, cursor, k, k - 1);
            &&& k - 1 <= l < starts.len()
            &&& starts[l] <= cursor
            &&& l + 1 < starts.len() ==> cursor < starts[l + 1]
        }),
    decreases starts.len() - k,
{
    if k < starts.len() && cursor >= starts[k] {
        lemma_scan_line_from(starts, cursor, k + 1);
    }
}

/// With increasing line starts from 0, the line `scan_line` finds for a
/// cursor is the one it stands on: the last line starting at or before the
/// cursor (the next line, if any, starts after it).
pub proof fn lemma_scan_line_finds_cursor_line(starts: Seq<nat>, cursor: nat)
    requires
        starts.len() >= 1,
        starts[0] == 0,
        forall|i: int, j: int| 0 <= i < j < starts.len() ==> #[trigger] starts[i] < #[trigger] starts[j],
    ensures
        ({
            let l = scan_line(starts, cursor, 0, 0);
            &&& 0 <= l < starts.len()
            &&& starts[l] <= cursor
            &&& l + 1 < starts.len() ==> cursor < starts[l + 1]
        }),
{
    lemma_scan_line_from(starts, cursor, 1);
}

/// The line starts of a text: 0, then the offset from the root of every
/// line break after it, in increasing order, and nothing else.
pub proof fn lemma_line_starts_are_line_breaks(s: Seq<SortEntry>, root: int, n: int)
    requires
        0 <= root < n <= s.len(),
    ensures
        ({
            let st = line_starts_upto(s, root, n);
            &&& st.len() >= 1 && st[0] == 0
            &&& forall|i: int, j: int| 0 <= i < j < st.len() ==> #[trigger] st[i] < #[trigger] st[j]
            &&& forall|i: int| 1 <= i < st.len() ==> root < root + #[trigger] st[i] < n
                && s[root + st[i]].kind is LineBreak
            &&& forall|k: int| root < k < n && (#[trigger] s[k]).kind is LineBreak ==> st.contains(
                (k - root) as nat,
            )
        }),
    decreases n - root,
{
    let st = line_starts_upto(s, root, n);
    if n > root + 1 {
        lemma_line_starts_are_line_breaks(s, root, n - 1);
        let h = line_starts_upto(s, root, n - 1);
        if s[n - 1].kind is LineBreak {
            assert(st == h.push((n - 1 - root) as nat));
            assert forall|k: int| root < k < n && (#[trigger] s[k]).kind is LineBreak implies st.contains(
                (k - root) as nat,
            ) by {
                if k < n - 1 {
                    let i = choose|i: int| 0 <= i < h.len() && h[i] == (k - root) as nat;
                    assert(st[i] == h[i]);
                } else {
                    assert(st[h.len() as int] == (k - root) as nat);
                }
            }
            assert forall|i: int, j: int| 0 <= i < j < st.len() implies #[trigger] st[i]
                < #[trigger] st[j] by {
                if j < h.len() {
                    assert(st[i] == h[i] && st[j] == h[j]);
                } else {
                    assert(st[i] == h[i]);
                    if i >= 1 {
                        assert(root + h[i] < n - 1);
                    }
                }
            }
        } else {
            assert forall|k: int| root < k < n && (#[trigger] s[k]).kind is LineBreak implies st.contains(
                (k - root) as nat,
            ) by {
                assert(k < n - 1);
            }
        }
    }
}

/// Moving right moves the active buffer's cursor one step towards the end
/// of its text (and not past it); moving left one step towards the start
/// (and not below it).  The active buffer stays the same.
pub proof fn lemma_cursor_steps_by_one(s: Seq<SortEntry>)
    requires
        active_root(s) is Some,
        cursor_arithmetic_fits(s),
    ensures
        ({
            let r = active_root(s)->0;
            let c = cursor_of(s, r);
            &&& active_root(after_cursor_right(s)) == Some(r)
            &&& c < sequence_length(s, r) ==> cursor_of(after_cursor_right(s), r) == c + 1
            &&& c >= sequence_length(s, r) ==> after_cursor_right(s) == s
            &&& active_root(after_cursor_left(s)) == Some(r)
            &&& c > 0 ==> cursor_of(after_cursor_left(s), r) + 1 == c
            &&& c == 0 ==> after_cursor_left(s) == s
        }),
{
    lemma_active_root_spec(s);
    let r = active_root(s)->0;
    let c = cursor_of(s, r);
    lemma_active_root_after_cursor(s, r, c + 1);
    if c > 0 {
        lemma_active_root_after_cursor(s, r, (c - 1) as nat);
    }
}

} // verus!
