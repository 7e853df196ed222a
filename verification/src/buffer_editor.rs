//! The multi-buffer text editor: every text buffer has an id of its own,
//! flows left-to-right or right-to-left from its root sort, and keeps its
//! own cursor in that root.
//!
//! As in `text_editor`, coordinates and advance widths are carried as `f32`
//! bit patterns; sums of advances are left to the application, which gets
//! from `buffer_flow_plan` which advances to add up.
use vstd::prelude::*;
use crate::sort_buffer::SortBuffer;
use crate::text_editor::{scan_line, F32Bits, GridConfig, MultilineCursor, Vec2Bits};
use crate::unicode::{hex4, hex_codepoint_string};
use vstd::string::*;

verus! {

/// Identifier of a text buffer; the sorts of a buffer carry its id.
#[derive(Clone, Copy, Debug, PartialEq, Eq, Hash, Structural)]
pub struct BufferId(pub u32);

/// The source of fresh buffer ids: the next one to hand out, counting from 1
/// and wrapping around at the end of `u32`.
pub struct BufferIdCounter {
    next: u32,
}

impl BufferIdCounter {
    /// A counter whose first id is 1.
    pub fn new() -> (r: Self)
        ensures
            r.peek() == 1,
    {
        BufferIdCounter { next: 1 }
    }

    /// The id the counter hands out next.
    pub closed spec fn peek(&self) -> u32 {
        self.next
    }
}

impl BufferId {
    /// A fresh id: the counter's next one; the counter moves on by one,
    /// wrapping around at the end of `u32`.
    pub fn new(counter: &mut BufferIdCounter) -> (r: BufferId)
        ensures
            r == BufferId(old(counter).peek()),
            final(counter).peek() == if old(counter).peek() == u32::MAX {
                0
            } else {
                (old(counter).peek() + 1) as u32
            },
    {
        let id = counter.next;
        counter.next = if id == u32::MAX { 0 } else { id + 1 };
        BufferId(id)
    }
}

/// Layout mode of a sort.
#[derive(Clone, Copy, Debug, PartialEq, Eq, Structural)]
pub enum SortLayoutMode {
    /// Flows left-to-right like Latin text
    LTRText,
    /// Flows right-to-left like Arabic or Hebrew text
    RTLText,
    /// Positioned freely in the design space
    Freeform,
}

impl Default for SortLayoutMode {
    /// Left-to-right text.
    fn default() -> (r: Self)
        ensures
            r == SortLayoutMode::LTRText,
    {
        SortLayoutMode::LTRText
    }
}

/// Whether new sorts go into text or freeform placement.
#[derive(Clone, Copy, Debug)]
pub struct TextModeConfig {
    pub default_placement_mode: SortLayoutMode,
}

impl Default for TextModeConfig {
    /// Left-to-right text placement.
    fn default() -> (r: Self)
        ensures
            r.default_placement_mode == SortLayoutMode::LTRText,
    {
        TextModeConfig { default_placement_mode: SortLayoutMode::LTRText }
    }
}

/// An entry of the sort buffer: a glyph or a line break.
#[derive(Clone, Debug)]
pub enum SortKind {
    Glyph {
        /// Unicode codepoint (the primary identifier)
        codepoint: Option<char>,
        /// Glyph name (the identifier when there is no codepoint)
        glyph_name: String,
        /// Advance width, as an `f32` bit pattern
        advance_width: F32Bits,
    },
    LineBreak,
}

impl SortKind {
    /// Whether this entry is a glyph.
    pub fn is_glyph(&self) -> (r: bool)
        ensures
            r == (self is Glyph),
    {
        match self {
            SortKind::Glyph { .. } => true,
            SortKind::LineBreak => false,
        }
    }

    /// Whether this entry is a line break.
    pub fn is_line_break(&self) -> (r: bool)
        ensures
            r == (self is LineBreak),
    {
        match self {
            SortKind::Glyph { .. } => false,
            SortKind::LineBreak => true,
        }
    }

    /// The glyph's codepoint; none for a line break.
    pub fn codepoint(&self) -> (r: Option<char>)
        ensures
            r == (match self {
                SortKind::Glyph { codepoint, .. } => *codepoint,
                SortKind::LineBreak => None,
            }),
    {
        match self {
            SortKind::Glyph { codepoint, .. } => *codepoint,
            SortKind::LineBreak => None,
        }
    }

    /// The glyph's name as characters; empty for a line break.
    pub open spec fn name_view(&self) -> Seq<char> {
        match self {
            SortKind::Glyph { glyph_name, .. } => glyph_name@,
            SortKind::LineBreak => Seq::empty(),
        }
    }

    /// The glyph name, or the empty string for a line break.
    pub fn glyph_name(&self) -> (r: &str)
        ensures
            r@ == self.name_view(),
    {
        match self {
            SortKind::Glyph { glyph_name, .. } => glyph_name.as_str(),
            SortKind::LineBreak => {
                proof {
                    reveal_strlit("");
                }
                ""
            },
        }
    }

    /// What a listing shows for this entry: `U+` and at least four
    /// upper-case hex digits of the codepoint when there is one, else the
    /// glyph name; a return arrow for a line break.
    pub open spec fn display_view(&self) -> Seq<char> {
        match self {
            SortKind::Glyph { codepoint, glyph_name, .. } => match codepoint {
                Some(cp) => "U+"@ + hex4((*cp as u32) as nat),
                None => glyph_name@,
            },
            SortKind::LineBreak => "\u{21b5}"@,
        }
    }

    /// The display string (see `display_view`).
    pub fn display_string(&self) -> (r: String)
        ensures
            r@ == self.display_view(),
    {
        match self {
            SortKind::Glyph { codepoint, glyph_name, .. } => match codepoint {
                Some(cp) => {
                    let digits = hex_codepoint_string(*cp as u32);
                    let mut out = String::from_str("U+");
                    out.append(digits.as_str());
                    out
                },
                None => glyph_name.clone(),
            },
            SortKind::LineBreak => String::from_str("\u{21b5}"),
        }
    }
}

/// A sort: a glyph or line break with its place in the editor.
#[derive(Clone, Debug)]
pub struct SortEntry {
    pub kind: SortKind,
    /// Whether this sort is active (in edit mode with points showing)
    pub is_active: bool,
    pub layout_mode: SortLayoutMode,
    /// Position of a buffer root or of a freeform sort
    pub root_position: Vec2Bits,
    /// Whether this sort is the first sort of a text buffer
    pub is_buffer_root: bool,
    /// Cursor within the buffer (only kept by buffer roots)
    pub buffer_cursor_position: Option<usize>,
    /// The text buffer this sort belongs to (none for freeform sorts)
    pub buffer_id: Option<BufferId>,
}

impl Default for SortEntry {
    /// An inactive left-to-right glyph with no codepoint, empty name and
    /// zero advance, at the origin; no root, no cursor, no buffer.
    fn default() -> (r: Self)
        ensures
            r.kind matches SortKind::Glyph { codepoint, glyph_name, advance_width } && codepoint
                is None && glyph_name@ == Seq::<char>::empty() && advance_width == F32Bits(0),
            !r.is_active,
            r.layout_mode == SortLayoutMode::LTRText,
            r.root_position == Vec2Bits::spec_zero(),
            !r.is_buffer_root,
            r.buffer_cursor_position is None,
            r.buffer_id is None,
    {
        SortEntry {
            kind: SortKind::Glyph {
                codepoint: None,
                glyph_name: String::new(),
                advance_width: F32Bits(0),
            },
            is_active: false,
            layout_mode: SortLayoutMode::LTRText,
            root_position: Vec2Bits::zero(),
            is_buffer_root: false,
            buffer_cursor_position: None,
            buffer_id: None,
        }
    }
}

/// Editor state: all sorts, text and freeform, in one gap buffer.
pub struct TextEditorState {
    pub buffer: SortBuffer<SortEntry>,
    pub cursor_position: usize,
    pub selection: Option<(usize, usize)>,
    pub viewport_offset: Vec2Bits,
    pub grid_config: GridConfig,
}

impl Default for TextEditorState {
    /// No sorts, cursor at zero, no selection, no scrolling, the default
    /// grid.
    fn default() -> (r: Self)
        ensures
            r.wf(),
            r.sorts() == Seq::<SortEntry>::empty(),
            r.cursor_position == 0,
            r.selection is None,
            r.viewport_offset == Vec2Bits::spec_zero(),
            r.grid_config.sorts_per_row == 16,
    {
        TextEditorState {
            buffer: SortBuffer::new(),
            cursor_position: 0,
            selection: None,
            viewport_offset: Vec2Bits::zero(),
            grid_config: GridConfig::default(),
        }
    }
}

/// Whether a layout mode flows as text.
pub open spec fn is_text_mode(m: SortLayoutMode) -> bool {
    m == SortLayoutMode::LTRText || m == SortLayoutMode::RTLText
}

/// Index of the first entry at or after `i` that satisfies `pred`.
pub open spec fn first_from(s: Seq<SortEntry>, pred: spec_fn(SortEntry) -> bool, i: int) -> Option<int>
    decreases s.len() - i,
{
    if i < 0 || i >= s.len() {
        None
    } else if pred(s[i]) {
        Some(i)
    } else {
        first_from(s, pred, i + 1)
    }
}

/// Index of the last entry before `n` that satisfies `pred`.
pub open spec fn last_before(s: Seq<SortEntry>, pred: spec_fn(SortEntry) -> bool, n: int) -> Option<int>
    decreases n,
{
    if n <= 0 || n > s.len() {
        None
    } else if pred(s[n - 1]) {
        Some(n - 1)
    } else {
        last_before(s, pred, n - 1)
    }
}

/// What `last_before` finds lies before `n` and satisfies `pred`.
proof fn lemma_last_before(s: Seq<SortEntry>, pred: spec_fn(SortEntry) -> bool, n: int)
    ensures
        last_before(s, pred, n) matches Some(k) ==> 0 <= k < n && k < s.len() && pred(s[k]),
    decreases n,
{
    if 0 < n <= s.len() && !pred(s[n - 1]) {
        lemma_last_before(s, pred, n - 1);
    }
}

/// The positions below `n` whose entries satisfy `pred`, in increasing order.
pub open spec fn indices_where(s: Seq<SortEntry>, pred: spec_fn(SortEntry) -> bool, n: int) -> Seq<int>
    decreases n,
{
    if n <= 0 {
        Seq::empty()
    } else if pred(s[n - 1]) {
        indices_where(s, pred, n - 1).push(n - 1)
    } else {
        indices_where(s, pred, n - 1)
    }
}

/// `r` lists, in order, the positions in `idx` paired with their entries.
pub open spec fn lists_positions(r: Seq<(usize, &SortEntry)>, s: Seq<SortEntry>, idx: Seq<int>) -> bool {
    &&& r.len() == idx.len()
    &&& forall|k: int|
        0 <= k < r.len() ==> (#[trigger] r[k]).0 == idx[k] && *r[k].1 == s[idx[k]]
}

/// The buffer ids carried by the first `n` entries, each once, in the order
/// of their first appearance.
pub open spec fn buffer_ids_upto(s: Seq<SortEntry>, n: int) -> Seq<BufferId>
    decreases n,
{
    if n <= 0 {
        Seq::empty()
    } else {
        let ids = buffer_ids_upto(s, n - 1);
        match s[n - 1].buffer_id {
            Some(id) => if ids.contains(id) {
                ids
            } else {
                ids.push(id)
            },
            None => ids,
        }
    }
}

pub open spec fn active_root_entry(e: SortEntry) -> bool {
    e.is_buffer_root && e.is_active
}

pub open spec fn root_with_cursor(e: SortEntry) -> bool {
    e.is_buffer_root && e.buffer_cursor_position is Some
}

pub open spec fn is_root(e: SortEntry) -> bool {
    e.is_buffer_root
}

/// The buffer root that editing applies to: the first active root, else the
/// first root with a cursor, else the last root.
pub open spec fn active_root(s: Seq<SortEntry>) -> Option<int> {
    match first_from(s, |e: SortEntry| active_root_entry(e), 0) {
        Some(i) => Some(i),
        None => match first_from(s, |e: SortEntry| root_with_cursor(e), 0) {
            Some(i) => Some(i),
            None => last_before(s, |e: SortEntry| is_root(e), s.len() as int),
        },
    }
}

/// `s` with every active flag cleared.
pub open spec fn deactivated(s: Seq<SortEntry>) -> Seq<SortEntry> {
    Seq::new(s.len(), |k: int| SortEntry { is_active: false, ..s[k] })
}

/// The cursor stored in the entry at `i`, zero when it has none.
pub open spec fn cursor_of(s: Seq<SortEntry>, i: int) -> nat {
    match s[i].buffer_cursor_position {
        Some(c) => c as nat,
        None => 0,
    }
}

/// `s` with the entry at `index` given the cursor `c` (when there is such an
/// entry).
pub open spec fn with_cursor(s: Seq<SortEntry>, index: int, c: nat) -> Seq<SortEntry> {
    if 0 <= index < s.len() {
        s.update(index, SortEntry { buffer_cursor_position: Some(c as usize), ..s[index] })
    } else {
        s
    }
}

/// No sort carries the buffer id `id`: a buffer started with it is new.
pub open spec fn id_is_new(s: Seq<SortEntry>, id: BufferId) -> bool {
    forall|k: int| 0 <= k < s.len() ==> (#[trigger] s[k]).buffer_id != Some(id)
}

/// Name of the placeholder glyph a new text root of mode `m` holds.
pub open spec fn default_glyph_name(m: SortLayoutMode) -> Seq<char> {
    if m == SortLayoutMode::RTLText {
        "alef-ar"@
    } else {
        "a"@
    }
}

/// Codepoint of the placeholder glyph a new text root of mode `m` holds.
pub open spec fn default_codepoint(m: SortLayoutMode) -> char {
    if m == SortLayoutMode::RTLText {
        '\u{0627}'
    } else {
        'a'
    }
}

/// Bit pattern of `500.0_f32`: the advance of a placeholder root when the
/// font gives none, and the x of the root a first typed glyph creates.
pub const FALLBACK_ADVANCE: u32 = 0x43fa_0000;

/// `e` is the root `create_text_root_with_fontir` makes: the placeholder of
/// its mode, active, with advance `aw`, at `pos`, in the buffer `id`, with
/// the cursor after the placeholder (left-to-right) or before it
/// (right-to-left).
pub open spec fn is_new_text_root(
    e: SortEntry,
    pos: Vec2Bits,
    m: SortLayoutMode,
    aw: F32Bits,
    id: BufferId,
) -> bool {
    &&& e.kind matches SortKind::Glyph { codepoint, glyph_name, advance_width } && codepoint
        == Some(default_codepoint(m)) && glyph_name@ == default_glyph_name(m) && advance_width
        == aw
    &&& e.is_active
    &&& e.layout_mode == m
    &&& e.root_position == pos
    &&& e.is_buffer_root
    &&& e.buffer_cursor_position == Some(if m == SortLayoutMode::RTLText { 0usize } else { 1usize })
    &&& e.buffer_id == Some(id)
}

/// The active root of mode `m` holding the glyph `name` that starts the
/// buffer `id` at `pos`, with the cursor after that glyph.
pub open spec fn glyph_root(
    name: String,
    aw: F32Bits,
    pos: Vec2Bits,
    cp: Option<char>,
    m: SortLayoutMode,
    id: BufferId,
) -> SortEntry {
    SortEntry {
        kind: SortKind::Glyph { codepoint: cp, glyph_name: name, advance_width: aw },
        is_active: true,
        layout_mode: m,
        root_position: pos,
        is_buffer_root: true,
        buffer_cursor_position: Some(1),
        buffer_id: Some(id),
    }
}

/// A glyph typed into the buffer of the root `root`: inactive, not a root,
/// at the origin, in the root's mode and buffer.
pub open spec fn typed_glyph(name: String, aw: F32Bits, cp: Option<char>, root: SortEntry) -> SortEntry {
    SortEntry {
        kind: SortKind::Glyph { codepoint: cp, glyph_name: name, advance_width: aw },
        is_active: false,
        layout_mode: root.layout_mode,
        root_position: Vec2Bits::spec_zero(),
        is_buffer_root: false,
        buffer_cursor_position: None,
        buffer_id: root.buffer_id,
    }
}

/// Where a first typed glyph with no buffer to go to starts a new buffer.
pub open spec fn default_root_position() -> Vec2Bits {
    Vec2Bits { x: F32Bits(FALLBACK_ADVANCE), y: F32Bits(0) }
}

/// Every arithmetic step of typing at the active cursor stays within `usize`.
pub open spec fn cursor_arithmetic_fits(s: Seq<SortEntry>) -> bool {
    active_root(s) matches Some(r) ==> r + cursor_of(s, r) + 1 <= usize::MAX
}

/// The cursor position a typed glyph goes to: the cursor, but never before
/// the root (position 0 is before the root, 1 right after it).
pub open spec fn typing_position(c: nat) -> nat {
    if c == 0 {
        1
    } else {
        c
    }
}

/// Where a glyph typed into the buffer of the root `r` goes: at the typing
/// position counted from the root, or at the end when that is past it.
pub open spec fn typing_index(s: Seq<SortEntry>, r: int) -> int {
    let at = r + typing_position(cursor_of(s, r));
    if at <= s.len() {
        at
    } else {
        s.len() as int
    }
}

/// The sorts after typing a glyph: it goes into the active buffer at the
/// cursor (right after the root when the cursor is before it), and the
/// cursor moves past it; with no buffer at all, a new left-to-right buffer
/// `id` is started at (500, 0) with the glyph as its root and every other
/// sort deactivated.
pub open spec fn spec_insert_with_respawn(
    s: Seq<SortEntry>,
    name: String,
    aw: F32Bits,
    cp: Option<char>,
    id: BufferId,
) -> Seq<SortEntry> {
    match active_root(s) {
        Some(r) => {
            let at = typing_index(s, r);
            with_cursor(s.insert(at, typed_glyph(name, aw, cp, s[r])), r, (at - r + 1) as nat)
        },
        None => deactivated(s).push(
            glyph_root(name, aw, default_root_position(), cp, SortLayoutMode::LTRText, id),
        ),
    }
}

/// Whether the entry at `k` is a sort of the buffer `id` other than its root.
pub open spec fn in_buffer_body(s: Seq<SortEntry>, k: int, id: Option<BufferId>) -> bool {
    0 <= k < s.len() && !s[k].is_buffer_root && s[k].buffer_id == id
}

/// The sorts after a backspace at the active buffer's cursor: the sort of
/// that buffer just before the cursor goes and the cursor moves back by
/// one; with the cursor at the root, the root goes when it is alone in its
/// buffer (no sort of the buffer follows it).  Nothing else changes.
pub open spec fn spec_delete_at_cursor(s: Seq<SortEntry>) -> Seq<SortEntry> {
    match active_root(s) {
        Some(r) => {
            let c = cursor_of(s, r);
            let id = s[r].buffer_id;
            if c >= 2 && in_buffer_body(s, r + c - 1, id) {
                with_cursor(s.remove(r + c - 1), r, (c - 1) as nat)
            } else if c <= 1 && !in_buffer_body(s, r + 1, id) {
                s.remove(r)
            } else {
                s
            }
        },
        None => s,
    }
}

/// The glyphs (not line breaks) among the entries `lo..hi`, in order.
pub open spec fn glyphs_between(s: Seq<SortEntry>, lo: int, hi: int) -> Seq<int>
    decreases hi - lo,
{
    if hi <= lo {
        Seq::empty()
    } else if s[hi - 1].kind is Glyph {
        glyphs_between(s, lo, hi - 1).push(hi - 1)
    } else {
        glyphs_between(s, lo, hi - 1)
    }
}

/// The root of the buffer `id` nearest before or at `p`.
pub open spec fn buffer_root_at_or_before(s: Seq<SortEntry>, id: BufferId, p: int) -> Option<int> {
    last_before(s, |e: SortEntry| e.is_buffer_root && e.buffer_id == Some(id), p + 1)
}

/// How the position of a text sort is obtained from the root of its buffer.
pub enum BufferFlowPlan {
    /// The sort is the root: it sits at the root position.
    Root { root_index: usize },
    /// The sort sits at the root position moved right by the sum, taken in
    /// order from zero, of the advances of `advance_indices`.
    Forward { root_index: usize, advance_indices: Vec<usize> },
    /// A right-to-left glyph: its right edge meets the left edge of the
    /// glyph before it.  The offset is minus its own advance (`own_index`)
    /// when it directly follows the root; otherwise it starts from zero,
    /// takes off in order the advances of `advance_indices`, and then its
    /// own.
    Backward { root_index: usize, advance_indices: Vec<usize>, own_index: usize },
}

/// Where a sort is drawn: at a stored position, or flowed from its root.
pub enum SortPlacement {
    /// At this position (buffer roots and freeform sorts)
    Stored(Vec2Bits),
    /// Flowed from the root of its buffer
    Flow(BufferFlowPlan),
}

impl BufferFlowPlan {
    /// The plan as plain values: the root, and unless the sort is the root,
    /// the advances to add up (or take off) and, going backward, the
    /// sort's own index.
    pub open spec fn plan_view(&self) -> (int, Option<(Seq<int>, Option<int>)>) {
        match self {
            BufferFlowPlan::Root { root_index } => (*root_index as int, None),
            BufferFlowPlan::Forward { root_index, advance_indices } => (
                *root_index as int,
                Some((advance_indices@.map_values(|i: usize| i as int), None)),
            ),
            BufferFlowPlan::Backward { root_index, advance_indices, own_index } => (
                *root_index as int,
                Some((advance_indices@.map_values(|i: usize| i as int), Some(*own_index as int))),
            ),
        }
    }
}

/// The plan `buffer_flow_plan` gives for the sort at `p`: a text sort that
/// belongs to a buffer whose root lies at or before it.  The sorts flow
/// edge to edge from the root: a left-to-right sort adds the advances of
/// the glyphs after the root up to and including itself; a right-to-left
/// glyph takes the same advances off; a right-to-left line break stays at
/// the root.
pub open spec fn spec_buffer_flow_plan(s: Seq<SortEntry>, p: int) -> Option<
    (int, Option<(Seq<int>, Option<int>)>),
> {
    if 0 <= p < s.len() && is_text_mode(s[p].layout_mode) && s[p].buffer_id is Some {
        match buffer_root_at_or_before(s, s[p].buffer_id->0, p) {
            Some(root) => if root == p {
                Some((root, None))
            } else if s[p].layout_mode == SortLayoutMode::RTLText {
                if s[p].kind is Glyph {
                    Some((root, Some((glyphs_between(s, root + 1, p), Some(p)))))
                } else {
                    Some((root, Some((Seq::empty(), None))))
                }
            } else {
                Some((root, Some((glyphs_between(s, root + 1, p + 1), None))))
            },
            None => None,
        }
    } else {
        None
    }
}

/// Number of entries of the text sequence that starts at the root `root`,
/// counted from `i`: the sequence stops before the next buffer root or the
/// first sort that is not text, and a root still holding the Latin
/// placeholder `a` does not count.
pub open spec fn sequence_length_from(s: Seq<SortEntry>, root: int, i: int) -> nat
    decreases s.len() - i,
{
    if i < 0 || i >= s.len() {
        0
    } else if (i > root && s[i].is_buffer_root) || !is_text_mode(s[i].layout_mode) {
        0
    } else if i == root && s[i].kind is Glyph && s[i].kind.name_view() == "a"@
        && s[i].is_buffer_root {
        sequence_length_from(s, root, i + 1)
    } else {
        1 + sequence_length_from(s, root, i + 1)
    }
}

pub open spec fn sequence_length(s: Seq<SortEntry>, root: int) -> nat {
    sequence_length_from(s, root, root)
}

/// The sorts after moving the active buffer's cursor to `position`,
/// clamped to the length of its text sequence.
pub open spec fn spec_move_cursor_to(s: Seq<SortEntry>, position: nat) -> Seq<SortEntry> {
    match active_root(s) {
        Some(r) => {
            let max = sequence_length(s, r);
            with_cursor(s, r, if position <= max { position } else { max })
        },
        None => s,
    }
}

/// The sorts after moving the active buffer's cursor one step left (none
/// at zero).
pub open spec fn spec_move_cursor_left(s: Seq<SortEntry>) -> Seq<SortEntry> {
    match active_root(s) {
        Some(r) => if cursor_of(s, r) > 0 {
            with_cursor(s, r, (cursor_of(s, r) - 1) as nat)
        } else {
            s
        },
        None => s,
    }
}

/// The sorts after moving the active buffer's cursor one step right (none
/// at the end of its text sequence).
pub open spec fn spec_move_cursor_right(s: Seq<SortEntry>) -> Seq<SortEntry> {
    match active_root(s) {
        Some(r) => if cursor_of(s, r) < sequence_length(s, r) {
            with_cursor(s, r, cursor_of(s, r) + 1)
        } else {
            s
        },
        None => s,
    }
}

/// The sorts after moving up to the previous buffer: the active root is
/// deactivated and the nearest root before it becomes active, its cursor at
/// the end of its text sequence.
pub open spec fn spec_move_cursor_up(s: Seq<SortEntry>) -> Seq<SortEntry> {
    match active_root(s) {
        Some(r) => match last_before(s, |e: SortEntry| is_root(e), r) {
            Some(j) => {
                let t = s.update(r, SortEntry { is_active: false, ..s[r] });
                t.update(
                    j,
                    SortEntry {
                        is_active: true,
                        buffer_cursor_position: Some(sequence_length(t, j) as usize),
                        ..t[j]
                    },
                )
            },
            None => s,
        },
        None => s,
    }
}

/// The sorts after moving down to the next buffer: the active root is
/// deactivated and the nearest root after it becomes active, its cursor at
/// zero.
pub open spec fn spec_move_cursor_down(s: Seq<SortEntry>) -> Seq<SortEntry> {
    match active_root(s) {
        Some(r) => match first_from(s, |e: SortEntry| is_root(e), r + 1) {
            Some(j) => {
                let t = s.update(r, SortEntry { is_active: false, ..s[r] });
                t.update(j, SortEntry { is_active: true, buffer_cursor_position: Some(0), ..t[j] })
            },
            None => s,
        },
        None => s,
    }
}

/// A line break in the buffer of the root `root`.
pub open spec fn line_break_in(root: SortEntry) -> SortEntry {
    SortEntry {
        kind: SortKind::LineBreak,
        is_active: false,
        layout_mode: root.layout_mode,
        root_position: Vec2Bits::spec_zero(),
        is_buffer_root: false,
        buffer_cursor_position: None,
        buffer_id: root.buffer_id,
    }
}

/// The sorts after pressing return: a line break of the active buffer goes
/// at the very end and the root's cursor is set to the new length.
pub open spec fn spec_line_break_at_cursor(s: Seq<SortEntry>) -> Seq<SortEntry> {
    match active_root(s) {
        Some(r) => with_cursor(s.push(line_break_in(s[r])), r, s.len() + 1),
        None => s,
    }
}

/// An active freeform sort holding the glyph `name` at `pos`.
pub open spec fn freeform_entry(name: String, pos: Vec2Bits, aw: F32Bits, cp: Option<char>) -> SortEntry {
    SortEntry {
        kind: SortKind::Glyph { codepoint: cp, glyph_name: name, advance_width: aw },
        is_active: true,
        layout_mode: SortLayoutMode::Freeform,
        root_position: pos,
        is_buffer_root: false,
        buffer_cursor_position: None,
        buffer_id: None,
    }
}

/// `s` with only the entry at `p` active (when there is one).
pub open spec fn only_active(s: Seq<SortEntry>, p: int) -> Seq<SortEntry> {
    Seq::new(s.len(), |k: int| SortEntry { is_active: k == p, ..s[k] })
}

/// Line starts of the text after the root `root`, counted in entries from
/// the root (the root's line starts at 0), over the entries before `n`: one
/// more for each line break after the root.
pub open spec fn line_starts_upto(s: Seq<SortEntry>, root: int, n: int) -> Seq<nat>
    decreases n - root,
{
    if n <= root + 1 {
        seq![0nat]
    } else if s[n - 1].kind is LineBreak {
        line_starts_upto(s, root, n - 1).push((n - 1 - root) as nat)
    } else {
        line_starts_upto(s, root, n - 1)
    }
}

proof fn lemma_line_starts_nonempty(s: Seq<SortEntry>, root: int, n: int)
    ensures
        line_starts_upto(s, root, n).len() >= 1,
        line_starts_upto(s, root, n)[0] == 0,
    decreases n - root,
{
    if n > root + 1 {
        lemma_line_starts_nonempty(s, root, n - 1);
    }
}

impl TextEditorState {
    /// The sort buffer is consistent.
    pub open spec fn wf(&self) -> bool {
        self.buffer.wf()
    }

    /// The entries in buffer order.
    pub open spec fn sorts(&self) -> Seq<SortEntry> {
        self.buffer@
    }

    /// `self` has the state of `other` besides the sorts.
    pub open spec fn same_settings(&self, other: Self) -> bool {
        &&& self.cursor_position == other.cursor_position
        &&& self.selection == other.selection
        &&& self.viewport_offset == other.viewport_offset
        &&& self.grid_config == other.grid_config
    }

    /// The text sorts (left-to-right or right-to-left) with their
    /// positions, in buffer order.
    pub fn get_text_sorts(&self) -> (r: Vec<(usize, &SortEntry)>)
        requires
            self.wf(),
        ensures
            lists_positions(
                r@,
                self.sorts(),
                indices_where(
                    self.sorts(),
                    |e: SortEntry| is_text_mode(e.layout_mode),
                    self.sorts().len() as int,
                ),
            ),
    {
        let ghost s = self.sorts();
        let ghost pred = |e: SortEntry| is_text_mode(e.layout_mode);
        let n = self.buffer.len();
        let mut result: Vec<(usize, &SortEntry)> = Vec::new();
        let mut i: usize = 0;
        while i < n
            invariant
                self.wf(),
                s == self.sorts(),
                pred == (|e: SortEntry| is_text_mode(e.layout_mode)),
                n == s.len(),
                0 <= i <= n,
                lists_positions(result@, s, indices_where(s, pred, i as int)),
            decreases n - i,
        {
            let sort = self.buffer.get(i).unwrap();
            if sort.layout_mode == SortLayoutMode::LTRText || sort.layout_mode
                == SortLayoutMode::RTLText {
                result.push((i, sort));
            }
            i = i + 1;
        }
        result
    }

    /// The sorts of the buffer `buffer_id` with their positions, in buffer
    /// order.
    pub fn get_sorts_for_buffer(&self, buffer_id: BufferId) -> (r: Vec<(usize, &SortEntry)>)
        requires
            self.wf(),
        ensures
            lists_positions(
                r@,
                self.sorts(),
                indices_where(
                    self.sorts(),
                    |e: SortEntry| e.buffer_id == Some(buffer_id),
                    self.sorts().len() as int,
                ),
            ),
    {
        let ghost s = self.sorts();
        let ghost pred = |e: SortEntry| e.buffer_id == Some(buffer_id);
        let n = self.buffer.len();
        let mut result: Vec<(usize, &SortEntry)> = Vec::new();
        let mut i: usize = 0;
        while i < n
            invariant
                self.wf(),
                s == self.sorts(),
                pred == (|e: SortEntry| e.buffer_id == Some(buffer_id)),
                n == s.len(),
                0 <= i <= n,
                lists_positions(result@, s, indices_where(s, pred, i as int)),
            decreases n - i,
        {
            let sort = self.buffer.get(i).unwrap();
            let same = match sort.buffer_id {
                Some(id) => id.0 == buffer_id.0,
                None => false,
            };
            if same {
                result.push((i, sort));
            }
            i = i + 1;
        }
        result
    }

    /// The root of the buffer `buffer_id` and its position: the first sort
    /// of that buffer marked as root.
    pub fn find_buffer_root(&self, buffer_id: BufferId) -> (r: Option<(usize, &SortEntry)>)
        requires
            self.wf(),
        ensures
            r == (match first_from(
                self.sorts(),
                |e: SortEntry| e.buffer_id == Some(buffer_id) && e.is_buffer_root,
                0,
            ) {
                Some(i) => Some((i as usize, &self.sorts()[i])),
                None => None,
            }),
    {
        let ghost s = self.sorts();
        let ghost pred = |e: SortEntry| e.buffer_id == Some(buffer_id) && e.is_buffer_root;
        let n = self.buffer.len();
        let mut i: usize = 0;
        while i < n
            invariant
                self.wf(),
                s == self.sorts(),
                pred == (|e: SortEntry| e.buffer_id == Some(buffer_id) && e.is_buffer_root),
                n == s.len(),
                0 <= i <= n,
                first_from(s, pred, 0) == first_from(s, pred, i as int),
            decreases n - i,
        {
            let sort = self.buffer.get(i).unwrap();
            let same = match sort.buffer_id {
                Some(id) => id.0 == buffer_id.0,
                None => false,
            };
            if same && sort.is_buffer_root {
                return Some((i, sort));
            }
            i = i + 1;
        }
        None
    }

    /// Every buffer id that some sort carries, once each, in the order in
    /// which they first appear.
    pub fn get_all_buffer_ids(&self) -> (r: Vec<BufferId>)
        requires
            self.wf(),
        ensures
            r@ == buffer_ids_upto(self.sorts(), self.sorts().len() as int),
    {
        let ghost s = self.sorts();
        let n = self.buffer.len();
        let mut ids: Vec<BufferId> = Vec::new();
        let mut i: usize = 0;
        while i < n
            invariant
                self.wf(),
                s == self.sorts(),
                n == s.len(),
                0 <= i <= n,
                ids@ == buffer_ids_upto(s, i as int),
            decreases n - i,
        {
            let sort = self.buffer.get(i).unwrap();
            if let Some(id) = sort.buffer_id {
                let mut seen = false;
                let mut k: usize = 0;
                while k < ids.len()
                    invariant
                        0 <= k <= ids.len(),
                        seen == ids@.take(k as int).contains(id),
                    decreases ids.len() - k,
                {
                    let ghost before = ids@.take(k as int);
                    let ghost next = ids@.take(k + 1);
                    if ids[k].0 == id.0 {
                        seen = true;
                        assert(next[k as int] == id);
                    } else {
                        proof {
                            assert(ids@[k as int] != id);
                            if next.contains(id) {
                                let j = choose|j: int| 0 <= j < next.len() && next[j] == id;
                                assert(before[j] == id);
                            }
                        }
                    }
                    proof {
                        assert(next =~= before.push(ids@[k as int]));
                    }
                    k = k + 1;
                }
                assert(ids@.take(ids.len() as int) =~= ids@);
                if !seen {
                    ids.push(id);
                }
            }
            i = i + 1;
        }
        ids
    }

    /// Index of the active buffer root: the first active root, else the
    /// first root with a cursor, else the last root.
    pub fn find_active_buffer_root_index(&self) -> (r: Option<usize>)
        requires
            self.wf(),
        ensures
            r is Some == active_root(self.sorts()) is Some,
            r matches Some(i) ==> active_root(self.sorts()) == Some(i as int),
            r matches Some(i) ==> i < self.sorts().len() && self.sorts()[i as int].is_buffer_root,
    {
        let ghost s = self.sorts();
        let n = self.buffer.len();
        let mut i: usize = 0;
        while i < n
            invariant
                self.wf(),
                s == self.sorts(),
                n == s.len(),
                0 <= i <= n,
                first_from(s, |e: SortEntry| active_root_entry(e), 0) == first_from(
                    s,
                    |e: SortEntry| active_root_entry(e),
                    i as int,
                ),
            decreases n - i,
        {
            let sort = self.buffer.get(i).unwrap();
            if sort.is_buffer_root && sort.is_active {
                return Some(i);
            }
            i = i + 1;
        }
        let mut i: usize = 0;
        while i < n
            invariant
                self.wf(),
                s == self.sorts(),
                n == s.len(),
                0 <= i <= n,
                first_from(s, |e: SortEntry| active_root_entry(e), 0) is None,
                first_from(s, |e: SortEntry| root_with_cursor(e), 0) == first_from(
                    s,
                    |e: SortEntry| root_with_cursor(e),
                    i as int,
                ),
            decreases n - i,
        {
            let sort = self.buffer.get(i).unwrap();
            if sort.is_buffer_root && sort.buffer_cursor_position.is_some() {
                return Some(i);
            }
            i = i + 1;
        }
        let mut i: usize = n;
        while i > 0
            invariant
                self.wf(),
                s == self.sorts(),
                n == s.len(),
                0 <= i <= n,
                first_from(s, |e: SortEntry| active_root_entry(e), 0) is None,
                first_from(s, |e: SortEntry| root_with_cursor(e), 0) is None,
                last_before(s, |e: SortEntry| is_root(e), n as int) == last_before(
                    s,
                    |e: SortEntry| is_root(e),
                    i as int,
                ),
            decreases i,
        {
            let sort = self.buffer.get(i - 1).unwrap();
            if sort.is_buffer_root {
                return Some(i - 1);
            }
            i = i - 1;
        }
        None
    }

    /// Clear the active flag of every sort; nothing else changes.
    pub fn clear_all_states(&mut self)
        requires
            old(self).wf(),
        ensures
            final(self).wf(),
            final(self).same_settings(*old(self)),
            final(self).sorts() == deactivated(old(self).sorts()),
    {
        let ghost s0 = self.sorts();
        let n = self.buffer.len();
        let mut i: usize = 0;
        while i < n
            invariant
                self.wf(),
                n == s0.len(),
                self.sorts().len() == n,
                0 <= i <= n,
                forall|k: int| 0 <= k < i ==> #[trigger] self.sorts()[k] == deactivated(s0)[k],
                forall|k: int| i <= k < n ==> #[trigger] self.sorts()[k] == s0[k],
                self.cursor_position == old(self).cursor_position,
                self.selection == old(self).selection,
                self.viewport_offset == old(self).viewport_offset,
                self.grid_config == old(self).grid_config,
            decreases n - i,
        {
            if let Some(sort) = self.buffer.get_mut(i) {
                sort.is_active = false;
            }
            i = i + 1;
        }
        assert(self.sorts() =~= deactivated(s0));
    }

    /// Start a new text buffer `buffer_id` of mode `layout_mode` at
    /// `world_position`, its root holding the placeholder glyph of that
    /// mode with the advance `font_advance` the font gives for it (500 when
    /// it gives none).  The root goes at the end and is the only active
    /// sort.
    pub fn create_text_root_with_fontir(
        &mut self,
        world_position: Vec2Bits,
        layout_mode: SortLayoutMode,
        font_advance: Option<F32Bits>,
        buffer_id: BufferId,
    )
        requires
            old(self).wf(),
            old(self).buffer.has_room_for(1),
            id_is_new(old(self).sorts(), buffer_id),
        ensures
            final(self).wf(),
            final(self).same_settings(*old(self)),
            final(self).sorts().len() == old(self).sorts().len() + 1,
            final(self).sorts().drop_last() == deactivated(old(self).sorts()),
            is_new_text_root(
                final(self).sorts().last(),
                world_position,
                layout_mode,
                match font_advance {
                    Some(a) => a,
                    None => F32Bits(FALLBACK_ADVANCE),
                },
                buffer_id,
            ),
    {
        self.clear_all_states();
        let (placeholder_glyph, placeholder_codepoint) = get_default_glyph_for_direction(
            &layout_mode,
        );
        let advance_width = match font_advance {
            Some(a) => a,
            None => F32Bits(FALLBACK_ADVANCE),
        };
        let cursor: usize = match layout_mode {
            SortLayoutMode::RTLText => 0,
            _ => 1,
        };
        let text_root = SortEntry {
            kind: SortKind::Glyph {
                codepoint: Some(placeholder_codepoint),
                glyph_name: placeholder_glyph,
                advance_width,
            },
            is_active: true,
            layout_mode,
            root_position: world_position,
            is_buffer_root: true,
            buffer_cursor_position: Some(cursor),
            buffer_id: Some(buffer_id),
        };
        let ghost before = self.sorts();
        let insert_index = self.buffer.len();
        self.buffer.insert(insert_index, text_root);
        assert(self.sorts() =~= before.push(text_root));
        assert(self.sorts().drop_last() =~= before);
    }

    /// `create_text_root_with_fontir` with no advance from the font.
    pub fn create_text_root(
        &mut self,
        world_position: Vec2Bits,
        layout_mode: SortLayoutMode,
        buffer_id: BufferId,
    )
        requires
            old(self).wf(),
            old(self).buffer.has_room_for(1),
            id_is_new(old(self).sorts(), buffer_id),
        ensures
            final(self).wf(),
            final(self).same_settings(*old(self)),
            final(self).sorts().len() == old(self).sorts().len() + 1,
            final(self).sorts().drop_last() == deactivated(old(self).sorts()),
            is_new_text_root(
                final(self).sorts().last(),
                world_position,
                layout_mode,
                F32Bits(FALLBACK_ADVANCE),
                buffer_id,
            ),
    {
        self.create_text_root_with_fontir(world_position, layout_mode, None, buffer_id);
    }

    /// Start a new buffer `buffer_id` of mode `layout_mode` whose root holds
    /// the glyph `glyph_name`, with the cursor after it.  Every other sort
    /// is deactivated.
    fn start_buffer_with_glyph(
        &mut self,
        glyph_name: String,
        advance_width: F32Bits,
        world_position: Vec2Bits,
        codepoint: Option<char>,
        layout_mode: SortLayoutMode,
        buffer_id: BufferId,
    )
        requires
            old(self).wf(),
            old(self).buffer.has_room_for(1),
        ensures
            final(self).wf(),
            final(self).same_settings(*old(self)),
            final(self).sorts() == deactivated(old(self).sorts()).push(
                glyph_root(
                    glyph_name,
                    advance_width,
                    world_position,
                    codepoint,
                    layout_mode,
                    buffer_id,
                ),
            ),
    {
        self.clear_all_states();
        let ghost name = glyph_name;
        let new_root = SortEntry {
            kind: SortKind::Glyph { codepoint, glyph_name, advance_width },
            is_active: true,
            layout_mode,
            root_position: world_position,
            is_buffer_root: true,
            buffer_cursor_position: Some(1),
            buffer_id: Some(buffer_id),
        };
        let ghost before = self.sorts();
        let insert_index = self.buffer.len();
        self.buffer.insert(insert_index, new_root);
        assert(self.sorts() =~= before.push(
            glyph_root(name, advance_width, world_position, codepoint, layout_mode, buffer_id),
        ));
    }

    /// Start a new left-to-right buffer `buffer_id` whose root holds the
    /// glyph `glyph_name`, with the cursor after it.  Every other sort is
    /// deactivated.
    pub fn create_text_root_with_glyph(
        &mut self,
        glyph_name: String,
        advance_width: F32Bits,
        world_position: Vec2Bits,
        codepoint: Option<char>,
        buffer_id: BufferId,
    )
        requires
            old(self).wf(),
            old(self).buffer.has_room_for(1),
            id_is_new(old(self).sorts(), buffer_id),
        ensures
            final(self).wf(),
            final(self).same_settings(*old(self)),
            final(self).sorts() == deactivated(old(self).sorts()).push(
                glyph_root(
                    glyph_name,
                    advance_width,
                    world_position,
                    codepoint,
                    SortLayoutMode::LTRText,
                    buffer_id,
                ),
            ),
    {
        self.start_buffer_with_glyph(
            glyph_name,
            advance_width,
            world_position,
            codepoint,
            SortLayoutMode::LTRText,
            buffer_id,
        );
    }

    /// Type a glyph at the cursor of the active buffer (see
    /// `spec_insert_with_respawn`); `buffer_id` names the buffer started when
    /// there is none, and must then be new.
    pub fn insert_sort_at_cursor_with_respawn(
        &mut self,
        glyph_name: String,
        advance_width: F32Bits,
        codepoint: Option<char>,
        buffer_id: BufferId,
    )
        requires
            old(self).wf(),
            old(self).buffer.has_room_for(1),
            cursor_arithmetic_fits(old(self).sorts()),
            active_root(old(self).sorts()) is None ==> id_is_new(old(self).sorts(), buffer_id),
        ensures
            final(self).wf(),
            final(self).same_settings(*old(self)),
            final(self).sorts() == spec_insert_with_respawn(
                old(self).sorts(),
                glyph_name,
                advance_width,
                codepoint,
                buffer_id,
            ),
    {
        if let Some(root_index) = self.find_active_buffer_root_index() {
            let root = self.buffer.get(root_index).unwrap();
            let cursor: usize = match root.buffer_cursor_position {
                Some(c) => c,
                None => 0,
            };
            let new_sort = SortEntry {
                kind: SortKind::Glyph { codepoint, glyph_name, advance_width },
                is_active: false,
                layout_mode: root.layout_mode,
                root_position: Vec2Bits::zero(),
                is_buffer_root: false,
                buffer_cursor_position: None,
                buffer_id: root.buffer_id,
            };
            let position: usize = if cursor == 0 { 1 } else { cursor };
            let n = self.buffer.len();
            let at = if position <= n - root_index { root_index + position } else { n };
            self.buffer.insert(at, new_sort);
            self.set_cursor_at(root_index, at - root_index + 1);
        } else {
            self.create_text_root_with_glyph(
                glyph_name,
                advance_width,
                Vec2Bits { x: F32Bits(FALLBACK_ADVANCE), y: F32Bits(0) },
                codepoint,
                buffer_id,
            );
        }
    }

    /// Type a glyph at the cursor; the same as
    /// `insert_sort_at_cursor_with_respawn`.
    pub fn insert_sort_at_cursor(
        &mut self,
        glyph_name: String,
        advance_width: F32Bits,
        codepoint: Option<char>,
        buffer_id: BufferId,
    )
        requires
            old(self).wf(),
            old(self).buffer.has_room_for(1),
            cursor_arithmetic_fits(old(self).sorts()),
            active_root(old(self).sorts()) is None ==> id_is_new(old(self).sorts(), buffer_id),
        ensures
            final(self).wf(),
            final(self).same_settings(*old(self)),
            final(self).sorts() == spec_insert_with_respawn(
                old(self).sorts(),
                glyph_name,
                advance_width,
                codepoint,
                buffer_id,
            ),
    {
        self.insert_sort_at_cursor_with_respawn(glyph_name, advance_width, codepoint, buffer_id);
    }

    /// Backspace (see `spec_delete_at_cursor`): delete the sort at the
    /// cursor of the active buffer.
    pub fn delete_sort_at_cursor(&mut self)
        requires
            old(self).wf(),
        ensures
            final(self).wf(),
            final(self).same_settings(*old(self)),
            final(self).sorts() == spec_delete_at_cursor(old(self).sorts()),
    {
        let ghost s = self.sorts();
        if let Some(root_index) = self.find_active_buffer_root_index() {
            let n = self.buffer.len();
            let root = self.buffer.get(root_index).unwrap();
            let id = root.buffer_id;
            let cursor: usize = match root.buffer_cursor_position {
                Some(c) => c,
                None => 0,
            };
            if cursor >= 2 {
                if cursor - 1 < n - root_index {
                    let target = root_index + (cursor - 1);
                    let sort = self.buffer.get(target).unwrap();
                    if !sort.is_buffer_root && same_buffer(sort.buffer_id, id) {
                        let _ = self.buffer.delete(target);
                        self.set_cursor_at(root_index, cursor - 1);
                    }
                }
            } else {
                let alone = if root_index + 1 < n {
                    let next = self.buffer.get(root_index + 1).unwrap();
                    next.is_buffer_root || !same_buffer(next.buffer_id, id)
                } else {
                    true
                };
                if alone {
                    let _ = self.buffer.delete(root_index);
                }
            }
        }
    }

    /// The glyphs among the entries `lo..hi`, in order.
    fn glyph_indices(&self, lo: usize, hi: usize) -> (r: Vec<usize>)
        requires
            self.wf(),
            hi <= self.sorts().len(),
        ensures
            r@.map_values(|i: usize| i as int) == glyphs_between(self.sorts(), lo as int, hi as int),
    {
        let ghost s = self.sorts();
        let mut out: Vec<usize> = Vec::new();
        let mut j: usize = lo;
        if hi < lo {
            assert(out@.map_values(|i: usize| i as int) =~= glyphs_between(s, lo as int, hi as int));
            return out;
        }
        assert(out@.map_values(|i: usize| i as int) =~= glyphs_between(s, lo as int, lo as int));
        while j < hi
            invariant
                self.wf(),
                s == self.sorts(),
                hi <= s.len(),
                lo <= j <= hi,
                out@.map_values(|i: usize| i as int) == glyphs_between(s, lo as int, j as int),
            decreases hi - j,
        {
            let sort = self.buffer.get(j).unwrap();
            let ghost before = out@;
            if sort.kind.is_glyph() {
                out.push(j);
                assert(out@.map_values(|i: usize| i as int) =~= before.map_values(
                    |i: usize| i as int,
                ).push(j as int));
            }
            j = j + 1;
        }
        out
    }

    /// How to place the text sort at `position` (see
    /// `spec_buffer_flow_plan`); `None` for a sort that is not text, has no
    /// buffer, or has no root of its buffer at or before it.
    pub fn buffer_flow_plan(&self, position: usize) -> (r: Option<BufferFlowPlan>)
        requires
            self.wf(),
        ensures
            r is Some == spec_buffer_flow_plan(self.sorts(), position as int) is Some,
            r matches Some(plan) ==> Some(plan.plan_view()) == spec_buffer_flow_plan(
                self.sorts(),
                position as int,
            ),
    {
        let ghost s = self.sorts();
        let n = self.buffer.len();
        let sort = match self.buffer.get(position) {
            Some(sort) => sort,
            None => return None,
        };
        if !(sort.layout_mode == SortLayoutMode::LTRText || sort.layout_mode
            == SortLayoutMode::RTLText) {
            return None;
        }
        let id = match sort.buffer_id {
            Some(id) => id,
            None => return None,
        };
        let ghost pred = |e: SortEntry| e.is_buffer_root && e.buffer_id == Some(id);
        let mut i: usize = position + 1;
        let mut found: Option<usize> = None;
        while i > 0
            invariant_except_break
                found is None,
                last_before(s, pred, position + 1) == last_before(s, pred, i as int),
            invariant
                self.wf(),
                s == self.sorts(),
                position < s.len(),
                0 <= i <= position + 1,
                pred == (|e: SortEntry| e.is_buffer_root && e.buffer_id == Some(id)),
            ensures
                found is Some == last_before(s, pred, position + 1) is Some,
                found matches Some(k) ==> last_before(s, pred, position + 1) == Some(k as int),
            decreases i,
        {
            let candidate = self.buffer.get(i - 1).unwrap();
            let same = match candidate.buffer_id {
                Some(c) => c.0 == id.0,
                None => false,
            };
            if candidate.is_buffer_root && same {
                found = Some(i - 1);
                break;
            }
            i = i - 1;
        }
        let root_index = match found {
            Some(r) => r,
            None => return None,
        };
        proof {
            lemma_last_before(s, pred, position + 1);
        }
        if position == root_index {
            return Some(BufferFlowPlan::Root { root_index });
        }
        if sort.layout_mode == SortLayoutMode::RTLText {
            if sort.kind.is_glyph() {
                let advance_indices = self.glyph_indices(root_index + 1, position);
                Some(BufferFlowPlan::Backward { root_index, advance_indices, own_index: position })
            } else {
                let advance_indices: Vec<usize> = Vec::new();
                assert(advance_indices@.map_values(|i: usize| i as int) =~= Seq::<int>::empty());
                Some(BufferFlowPlan::Forward { root_index, advance_indices })
            }
        } else {
            let advance_indices = self.glyph_indices(root_index + 1, position + 1);
            Some(BufferFlowPlan::Forward { root_index, advance_indices })
        }
    }

    /// Length of the text sequence that starts at the root `root_index`.
    pub fn get_buffer_sequence_length(&self, root_index: usize) -> (r: usize)
        requires
            self.wf(),
        ensures
            r == sequence_length(self.sorts(), root_index as int),
    {
        let ghost s = self.sorts();
        let n = self.buffer.len();
        let mut length: usize = 0;
        let mut i: usize = root_index;
        while i < n
            invariant
                self.wf(),
                s == self.sorts(),
                n == s.len(),
                root_index <= i,
                length <= i - root_index,
                length + sequence_length_from(s, root_index as int, i as int) == sequence_length(
                    s,
                    root_index as int,
                ),
            decreases n - i,
        {
            let sort = self.buffer.get(i).unwrap();
            if (i > root_index && sort.is_buffer_root) || !(sort.layout_mode
                == SortLayoutMode::LTRText || sort.layout_mode == SortLayoutMode::RTLText) {
                return length;
            }
            let is_placeholder = i == root_index && sort.kind.is_glyph() && str_eq_a(
                sort.kind.glyph_name(),
            ) && sort.is_buffer_root;
            if !is_placeholder {
                length = length + 1;
            }
            i = i + 1;
        }
        length
    }

    /// Set the cursor stored in the entry at `index` to `value`.
    fn set_cursor_at(&mut self, index: usize, value: usize)
        requires
            old(self).wf(),
            index < old(self).sorts().len(),
        ensures
            final(self).wf(),
            final(self).same_settings(*old(self)),
            final(self).sorts() == with_cursor(old(self).sorts(), index as int, value as nat),
    {
        if let Some(root_sort) = self.buffer.get_mut(index) {
            root_sort.buffer_cursor_position = Some(value);
        }
    }

    /// Move the active buffer's cursor to `position`, clamped to the length
    /// of its text sequence.
    pub fn move_cursor_to(&mut self, position: usize)
        requires
            old(self).wf(),
        ensures
            final(self).wf(),
            final(self).same_settings(*old(self)),
            final(self).sorts() == spec_move_cursor_to(old(self).sorts(), position as nat),
    {
        if let Some(root_index) = self.find_active_buffer_root_index() {
            let max_pos = self.get_buffer_sequence_length(root_index);
            let clamped = if position <= max_pos { position } else { max_pos };
            self.set_cursor_at(root_index, clamped);
        }
    }

    /// Move the active buffer's cursor one step left.
    pub fn move_cursor_left(&mut self)
        requires
            old(self).wf(),
        ensures
            final(self).wf(),
            final(self).same_settings(*old(self)),
            final(self).sorts() == spec_move_cursor_left(old(self).sorts()),
    {
        if let Some(root_index) = self.find_active_buffer_root_index() {
            let current: usize = match self.buffer.get(root_index).unwrap().buffer_cursor_position {
                Some(c) => c,
                None => 0,
            };
            if current > 0 {
                self.set_cursor_at(root_index, current - 1);
            }
        }
    }

    /// Move the active buffer's cursor one step right.
    pub fn move_cursor_right(&mut self)
        requires
            old(self).wf(),
        ensures
            final(self).wf(),
            final(self).same_settings(*old(self)),
            final(self).sorts() == spec_move_cursor_right(old(self).sorts()),
    {
        if let Some(root_index) = self.find_active_buffer_root_index() {
            let max_pos = self.get_buffer_sequence_length(root_index);
            let current: usize = match self.buffer.get(root_index).unwrap().buffer_cursor_position {
                Some(c) => c,
                None => 0,
            };
            if current < max_pos {
                self.set_cursor_at(root_index, current + 1);
            }
        }
    }

    /// Set the active flag of the entry at `index`.
    fn set_active_at(&mut self, index: usize, value: bool)
        requires
            old(self).wf(),
            index < old(self).sorts().len(),
        ensures
            final(self).wf(),
            final(self).same_settings(*old(self)),
            final(self).sorts() == old(self).sorts().update(
                index as int,
                SortEntry { is_active: value, ..old(self).sorts()[index as int] },
            ),
    {
        if let Some(sort) = self.buffer.get_mut(index) {
            sort.is_active = value;
        }
    }

    /// Move to the previous buffer (see `spec_move_cursor_up`).
    pub fn move_cursor_up(&mut self)
        requires
            old(self).wf(),
        ensures
            final(self).wf(),
            final(self).same_settings(*old(self)),
            final(self).sorts() == spec_move_cursor_up(old(self).sorts()),
    {
        let ghost s = self.sorts();
        if let Some(current) = self.find_active_buffer_root_index() {
            let mut i: usize = current;
            while i > 0
                invariant
                    self.wf(),
                    s == self.sorts(),
                    s == old(self).sorts(),
                    self.same_settings(*old(self)),
                    active_root(s) == Some(current as int),
                    current < s.len(),
                    0 <= i <= current,
                    last_before(s, |e: SortEntry| is_root(e), current as int) == last_before(
                        s,
                        |e: SortEntry| is_root(e),
                        i as int,
                    ),
                decreases i,
            {
                if self.buffer.get(i - 1).unwrap().is_buffer_root {
                    let j = i - 1;
                    self.set_active_at(current, false);
                    let length = self.get_buffer_sequence_length(j);
                    let ghost t = self.sorts();
                    self.set_active_at(j, true);
                    self.set_cursor_at(j, length);
                    assert(self.sorts() =~= t.update(
                        j as int,
                        SortEntry {
                            is_active: true,
                            buffer_cursor_position: Some(length),
                            ..t[j as int]
                        },
                    ));
                    return;
                }
                i = i - 1;
            }
        }
    }

    /// Move to the next buffer (see `spec_move_cursor_down`).
    pub fn move_cursor_down(&mut self)
        requires
            old(self).wf(),
        ensures
            final(self).wf(),
            final(self).same_settings(*old(self)),
            final(self).sorts() == spec_move_cursor_down(old(self).sorts()),
    {
        let ghost s = self.sorts();
        if let Some(current) = self.find_active_buffer_root_index() {
            let n = self.buffer.len();
            let mut i: usize = current + 1;
            while i < n
                invariant
                    self.wf(),
                    s == self.sorts(),
                    s == old(self).sorts(),
                    self.same_settings(*old(self)),
                    active_root(s) == Some(current as int),
                    n == s.len(),
                    current < n,
                    current + 1 <= i,
                    first_from(s, |e: SortEntry| is_root(e), current + 1) == first_from(
                        s,
                        |e: SortEntry| is_root(e),
                        i as int,
                    ),
                decreases n - i,
            {
                if self.buffer.get(i).unwrap().is_buffer_root {
                    self.set_active_at(current, false);
                    let ghost t = self.sorts();
                    self.set_active_at(i, true);
                    self.set_cursor_at(i, 0);
                    assert(self.sorts() =~= t.update(
                        i as int,
                        SortEntry { is_active: true, buffer_cursor_position: Some(0), ..t[i as int] },
                    ));
                    return;
                }
                i = i + 1;
            }
        }
    }

    /// Press return (see `spec_line_break_at_cursor`).
    pub fn insert_line_break_at_cursor(&mut self)
        requires
            old(self).wf(),
            old(self).buffer.has_room_for(1),
        ensures
            final(self).wf(),
            final(self).same_settings(*old(self)),
            final(self).sorts() == spec_line_break_at_cursor(old(self).sorts()),
    {
        let ghost s = self.sorts();
        if let Some(root_index) = self.find_active_buffer_root_index() {
            let root = self.buffer.get(root_index).unwrap();
            let new_sort = SortEntry {
                kind: SortKind::LineBreak,
                is_active: false,
                layout_mode: root.layout_mode,
                root_position: Vec2Bits::zero(),
                is_buffer_root: false,
                buffer_cursor_position: None,
                buffer_id: root.buffer_id,
            };
            let insert_index = self.buffer.len();
            self.buffer.insert(insert_index, new_sort);
            assert(self.sorts() =~= s.push(line_break_in(s[root_index as int])));
            let new_cursor = self.buffer.len();
            self.set_cursor_at(root_index, new_cursor);
        }
    }

    /// Add an active freeform sort holding `glyph_name` at `position`;
    /// every other sort is deactivated.
    pub fn add_freeform_sort(
        &mut self,
        glyph_name: String,
        position: Vec2Bits,
        advance_width: F32Bits,
        codepoint: Option<char>,
    )
        requires
            old(self).wf(),
            old(self).buffer.has_room_for(1),
        ensures
            final(self).wf(),
            final(self).same_settings(*old(self)),
            final(self).sorts() == deactivated(old(self).sorts()).push(
                freeform_entry(glyph_name, position, advance_width, codepoint),
            ),
    {
        self.clear_all_states();
        let ghost name = glyph_name;
        let new_sort = SortEntry {
            kind: SortKind::Glyph { codepoint, glyph_name, advance_width },
            is_active: true,
            layout_mode: SortLayoutMode::Freeform,
            root_position: position,
            is_buffer_root: false,
            buffer_cursor_position: None,
            buffer_id: None,
        };
        let ghost before = self.sorts();
        let insert_index = self.buffer.len();
        self.buffer.insert(insert_index, new_sort);
        assert(self.sorts() =~= before.push(
            freeform_entry(name, position, advance_width, codepoint),
        ));
    }

    /// The sort at `position`, if any.
    pub fn get_sort_at_position(&self, position: usize) -> (r: Option<&SortEntry>)
        requires
            self.wf(),
        ensures
            r == (if position < self.sorts().len() {
                Some(&self.sorts()[position as int])
            } else {
                None
            }),
    {
        self.buffer.get(position)
    }

    /// The first active sort and its position, if any.
    pub fn get_active_sort(&self) -> (r: Option<(usize, &SortEntry)>)
        requires
            self.wf(),
        ensures
            r == (match first_from(self.sorts(), |e: SortEntry| e.is_active, 0) {
                Some(i) => Some((i as usize, &self.sorts()[i])),
                None => None,
            }),
    {
        let ghost s = self.sorts();
        let n = self.buffer.len();
        let mut i: usize = 0;
        while i < n
            invariant
                self.wf(),
                s == self.sorts(),
                n == s.len(),
                0 <= i <= n,
                first_from(s, |e: SortEntry| e.is_active, 0) == first_from(
                    s,
                    |e: SortEntry| e.is_active,
                    i as int,
                ),
            decreases n - i,
        {
            let sort = self.buffer.get(i).unwrap();
            if sort.is_active {
                return Some((i, sort));
            }
            i = i + 1;
        }
        None
    }

    /// Make the sort at `position` the only active one; false (with every
    /// sort deactivated) when there is no sort there.
    pub fn activate_sort(&mut self, position: usize) -> (r: bool)
        requires
            old(self).wf(),
        ensures
            final(self).wf(),
            final(self).same_settings(*old(self)),
            r == (position < old(self).sorts().len()),
            final(self).sorts() == only_active(old(self).sorts(), position as int),
    {
        let ghost s = self.sorts();
        self.clear_all_states();
        if position < self.buffer.len() {
            self.set_active_at(position, true);
            assert(self.sorts() =~= only_active(s, position as int));
            true
        } else {
            assert(self.sorts() =~= only_active(s, position as int));
            false
        }
    }

    /// Clear the active flag of every sort.
    pub fn clear_active_state(&mut self)
        requires
            old(self).wf(),
        ensures
            final(self).wf(),
            final(self).same_settings(*old(self)),
            final(self).sorts() == deactivated(old(self).sorts()),
    {
        self.clear_all_states();
    }

    /// Text tool click: with no buffer root at all, start a buffer
    /// `buffer_id` of mode `layout_mode` at `world_position` whose root
    /// holds the glyph (every other sort deactivated); otherwise type the
    /// glyph at the active cursor.
    pub fn create_text_sort_at_position(
        &mut self,
        glyph_name: String,
        world_position: Vec2Bits,
        advance_width: F32Bits,
        layout_mode: SortLayoutMode,
        codepoint: Option<char>,
        buffer_id: BufferId,
    )
        requires
            old(self).wf(),
            old(self).buffer.has_room_for(1),
            cursor_arithmetic_fits(old(self).sorts()),
            active_root(old(self).sorts()) is None ==> id_is_new(old(self).sorts(), buffer_id),
        ensures
            final(self).wf(),
            final(self).same_settings(*old(self)),
            final(self).sorts() == match active_root(old(self).sorts()) {
                None => deactivated(old(self).sorts()).push(
                    glyph_root(
                        glyph_name,
                        advance_width,
                        world_position,
                        codepoint,
                        layout_mode,
                        buffer_id,
                    ),
                ),
                Some(_) => spec_insert_with_respawn(
                    old(self).sorts(),
                    glyph_name,
                    advance_width,
                    codepoint,
                    buffer_id,
                ),
            },
    {
        if self.find_active_buffer_root_index().is_none() {
            self.start_buffer_with_glyph(
                glyph_name,
                advance_width,
                world_position,
                codepoint,
                layout_mode,
                buffer_id,
            );
        } else {
            self.insert_sort_at_cursor(glyph_name, advance_width, codepoint, buffer_id);
        }
    }

    /// Where the sort at `buffer_position` is drawn: roots and freeform
    /// sorts at their stored position, other text sorts by the flow plan;
    /// `None` when there is no such sort or it has no plan.
    pub fn get_sort_visual_position(&self, buffer_position: usize) -> (r: Option<SortPlacement>)
        requires
            self.wf(),
        ensures
            r is None <==> (buffer_position >= self.sorts().len() || (is_text_mode(
                self.sorts()[buffer_position as int].layout_mode,
            ) && !self.sorts()[buffer_position as int].is_buffer_root && spec_buffer_flow_plan(
                self.sorts(),
                buffer_position as int,
            ) is None)),
            r matches Some(SortPlacement::Stored(v)) ==> buffer_position < self.sorts().len() && (
            !is_text_mode(self.sorts()[buffer_position as int].layout_mode)
                || self.sorts()[buffer_position as int].is_buffer_root) && v == self.sorts()[buffer_position as int].root_position,
            r matches Some(SortPlacement::Flow(plan)) ==> buffer_position < self.sorts().len()
                && is_text_mode(self.sorts()[buffer_position as int].layout_mode)
                && !self.sorts()[buffer_position as int].is_buffer_root && Some(plan.plan_view())
                == spec_buffer_flow_plan(self.sorts(), buffer_position as int),
    {
        let sort = match self.buffer.get(buffer_position) {
            Some(sort) => sort,
            None => return None,
        };
        match sort.layout_mode {
            SortLayoutMode::LTRText | SortLayoutMode::RTLText => {
                if sort.is_buffer_root {
                    Some(SortPlacement::Stored(sort.root_position))
                } else {
                    match self.buffer_flow_plan(buffer_position) {
                        Some(plan) => Some(SortPlacement::Flow(plan)),
                        None => None,
                    }
                }
            },
            SortLayoutMode::Freeform => Some(SortPlacement::Stored(sort.root_position)),
        }
    }

    /// Line structure of the active buffer: its root, cursor, the starts
    /// of its lines (one per line break after the root) and the line the
    /// cursor is on; `None` without a buffer root.  Which position on the
    /// neighbouring line is closest is decided by the caller from the
    /// advances.
    pub fn multiline_cursor(&self) -> (r: Option<MultilineCursor>)
        requires
            self.wf(),
        ensures
            r is Some == active_root(self.sorts()) is Some,
            r matches Some(m) ==> {
                &&& active_root(self.sorts()) == Some(m.root_index as int)
                &&& m.cursor == cursor_of(self.sorts(), m.root_index as int)
                &&& m.line_starts@.map_values(|x: usize| x as nat) == line_starts_upto(
                    self.sorts(),
                    m.root_index as int,
                    self.sorts().len() as int,
                )
                &&& m.current_line == scan_line(
                    line_starts_upto(self.sorts(), m.root_index as int, self.sorts().len() as int),
                    m.cursor as nat,
                    0,
                    0,
                )
                &&& m.current_line < m.line_starts@.len()
                &&& m.offsets_len == self.sorts().len() - m.root_index
            },
    {
        let ghost s = self.sorts();
        let root_index = match self.find_active_buffer_root_index() {
            Some(r) => r,
            None => return None,
        };
        let cursor = match self.buffer.get(root_index).unwrap().buffer_cursor_position {
            Some(c) => c,
            None => 0,
        };
        let n = self.buffer.len();
        let mut line_starts: Vec<usize> = Vec::new();
        line_starts.push(0);
        let mut i: usize = root_index + 1;
        while i < n
            invariant
                self.wf(),
                s == self.sorts(),
                n == s.len(),
                root_index < i <= n,
                line_starts@.map_values(|x: usize| x as nat) == line_starts_upto(
                    s,
                    root_index as int,
                    i as int,
                ),
            decreases n - i,
        {
            if self.buffer.get(i).unwrap().kind.is_line_break() {
                line_starts.push(i - root_index);
            }
            proof {
                assert(line_starts@.map_values(|x: usize| x as nat) =~= line_starts_upto(
                    s,
                    root_index as int,
                    i + 1,
                ));
            }
            i = i + 1;
        }
        proof {
            assert(line_starts@.map_values(|x: usize| x as nat) =~= line_starts_upto(
                s,
                root_index as int,
                n as int,
            ));
        }
        let ghost starts = line_starts_upto(s, root_index as int, n as int);
        proof {
            lemma_line_starts_nonempty(s, root_index as int, n as int);
        }
        let mut current_line: usize = 0;
        let mut k: usize = 0;
        let count = line_starts.len();
        while k < count
            invariant
                count == line_starts@.len(),
                line_starts@.map_values(|x: usize| x as nat) == starts,
                0 <= k <= count,
                current_line < count,
                k > 0 ==> current_line == k - 1,
                k == 0 ==> current_line == 0,
                scan_line(starts, cursor as nat, 0, 0) == scan_line(
                    starts,
                    cursor as nat,
                    k as int,
                    current_line as int,
                ),
            ensures
                current_line < count,
                scan_line(starts, cursor as nat, 0, 0) == current_line as int,
            decreases count - k,
        {
            assert(starts[k as int] == line_starts@[k as int] as nat);
            if cursor < line_starts[k] {
                break;
            }
            current_line = k;
            k = k + 1;
        }
        Some(
            MultilineCursor {
                root_index,
                cursor,
                line_starts,
                current_line,
                offsets_len: n - root_index,
            },
        )
    }

    /// Set the cursor of the buffer root at `root_index` to `value`.
    pub fn set_buffer_cursor(&mut self, root_index: usize, value: usize)
        requires
            old(self).wf(),
            root_index < old(self).sorts().len(),
        ensures
            final(self).wf(),
            final(self).same_settings(*old(self)),
            final(self).sorts() == with_cursor(old(self).sorts(), root_index as int, value as nat),
    {
        self.set_cursor_at(root_index, value);
    }
}

/// The placeholder glyph name and codepoint for a new text root of mode
/// `layout_mode`: Arabic alef for right-to-left, Latin `a` otherwise.
pub fn get_default_glyph_for_direction(layout_mode: &SortLayoutMode) -> (r: (String, char))
    ensures
        r.0@ == default_glyph_name(*layout_mode),
        r.1 == default_codepoint(*layout_mode),
{
    match layout_mode {
        SortLayoutMode::RTLText => (String::from_str("alef-ar"), '\u{0627}'),
        _ => (String::from_str("a"), 'a'),
    }
}

/// `get_all_buffer_ids` lists each buffer id once, and exactly the ids that
/// some sort carries.
pub proof fn lemma_all_buffer_ids_distinct(state: TextEditorState)
    requires
        state.wf(),
    ensures
        buffer_ids_upto(state.sorts(), state.sorts().len() as int).no_duplicates(),
        forall|id: BufferId|
            buffer_ids_upto(state.sorts(), state.sorts().len() as int).contains(id) <==> exists|k: int|
                0 <= k < state.sorts().len() && state.sorts()[k].buffer_id == Some(id),
{
    lemma_buffer_ids_upto(state.sorts(), state.sorts().len() as int);
}

proof fn lemma_buffer_ids_upto(s: Seq<SortEntry>, n: int)
    requires
        0 <= n <= s.len(),
    ensures
        buffer_ids_upto(s, n).no_duplicates(),
        forall|id: BufferId|
            buffer_ids_upto(s, n).contains(id) <==> exists|k: int|
                0 <= k < n && s[k].buffer_id == Some(id),
    decreases n,
{
    if n > 0 {
        lemma_buffer_ids_upto(s, n - 1);
        let ids = buffer_ids_upto(s, n - 1);
        assert forall|id: BufferId|
            buffer_ids_upto(s, n).contains(id) <==> exists|k: int|
                0 <= k < n && s[k].buffer_id == Some(id) by {
            if buffer_ids_upto(s, n).contains(id) {
                if ids.contains(id) {
                    let k = choose|k: int| 0 <= k < n - 1 && s[k].buffer_id == Some(id);
                    assert(0 <= k < n && s[k].buffer_id == Some(id));
                } else {
                    assert(s[n - 1].buffer_id == Some(id)) by {
                        let j = choose|j: int|
                            0 <= j < buffer_ids_upto(s, n).len() && buffer_ids_upto(s, n)[j]
                                == id;
                        if s[n - 1].buffer_id is Some && !ids.contains(s[n - 1].buffer_id->0) {
                            if j < ids.len() {
                                assert(ids[j] == id);
                            }
                        } else {
                            assert(ids[j] == id);
                        }
                    }
                }
            }
            if exists|k: int| 0 <= k < n && s[k].buffer_id == Some(id) {
                let k = choose|k: int| 0 <= k < n && s[k].buffer_id == Some(id);
                if k < n - 1 {
                    assert(ids.contains(id));
                    let j = choose|j: int| 0 <= j < ids.len() && ids[j] == id;
                    assert(buffer_ids_upto(s, n)[j] == id);
                } else if !ids.contains(id) {
                    assert(buffer_ids_upto(s, n)[ids.len() as int] == id);
                }
            }
        }
    }
}

/// After `create_text_root_with_fontir` with an id no sort carried yet,
/// `find_buffer_root` finds the new root at the end, it is the root that
/// editing goes to, and a text root is placed at its own position.  `before` and `after` are the states around the
/// call, `after` as its contract describes it.
pub proof fn lemma_new_root_is_found(
    before: TextEditorState,
    after: TextEditorState,
    world_position: Vec2Bits,
    layout_mode: SortLayoutMode,
    advance: F32Bits,
    buffer_id: BufferId,
)
    requires
        before.wf(),
        id_is_new(before.sorts(), buffer_id),
        after.sorts().len() == before.sorts().len() + 1,
        after.sorts().drop_last() == deactivated(before.sorts()),
        is_new_text_root(after.sorts().last(), world_position, layout_mode, advance, buffer_id),
    ensures
        first_from(
            after.sorts(),
            |e: SortEntry| e.buffer_id == Some(buffer_id) && e.is_buffer_root,
            0,
        ) == Some(before.sorts().len() as int),
        active_root(after.sorts()) == Some(before.sorts().len() as int),
        is_text_mode(layout_mode) ==> spec_buffer_flow_plan(
            after.sorts(),
            before.sorts().len() as int,
        ) == Some((before.sorts().len() as int, None::<(Seq<int>, Option<int>)>)),
{
    let s = after.sorts();
    let n = before.sorts().len() as int;
    let pred = |e: SortEntry| e.buffer_id == Some(buffer_id) && e.is_buffer_root;
    assert forall|k: int| 0 <= k < n implies !pred(#[trigger] s[k]) by {
        assert(s[k] == deactivated(before.sorts())[k]);
        assert(before.sorts()[k].buffer_id != Some(buffer_id));
    }
    lemma_first_from_last(s, pred, 0);
    assert forall|k: int| 0 <= k < n implies !active_root_entry(#[trigger] s[k]) by {
        assert(s[k] == deactivated(before.sorts())[k]);
    }
    lemma_first_from_last(s, |e: SortEntry| active_root_entry(e), 0);
    assert(pred(s[n]));
    assert(s[n].buffer_id->0 == buffer_id);
    assert(buffer_root_at_or_before(s, buffer_id, n) == Some(n));
}

/// When only the last entry satisfies `pred`, `first_from` finds it.
proof fn lemma_first_from_last(s: Seq<SortEntry>, pred: spec_fn(SortEntry) -> bool, i: int)
    requires
        0 <= i < s.len(),
        pred(s.last()),
        forall|k: int| 0 <= k < s.len() - 1 ==> !pred(#[trigger] s[k]),
    ensures
        first_from(s, pred, i) == Some(s.len() - 1),
    decreases s.len() - i,
{
    if i < s.len() - 1 {
        lemma_first_from_last(s, pred, i + 1);
    }
}

/// Whether `name` is the Latin placeholder `a`.
fn str_eq_a(name: &str) -> (r: bool)
    ensures
        r == (name@ == "a"@),
{
    proof {
        reveal_strlit("a");
    }
    if name.unicode_len() != 1 {
        return false;
    }
    let c = name.get_char(0);
    proof {
        if c == 'a' {
            assert(name@ =~= "a"@);
        }
    }
    c == 'a'
}

/// The sorts of the buffer `id`, in order.
pub open spec fn buffer_entries(s: Seq<SortEntry>, id: BufferId) -> Seq<SortEntry>
    decreases s.len(),
{
    if s.len() == 0 {
        Seq::empty()
    } else if s.last().buffer_id == Some(id) {
        buffer_entries(s.drop_last(), id).push(s.last())
    } else {
        buffer_entries(s.drop_last(), id)
    }
}

proof fn lemma_buffer_entries_concat(a: Seq<SortEntry>, b: Seq<SortEntry>, id: BufferId)
    ensures
        buffer_entries(a + b, id) == buffer_entries(a, id) + buffer_entries(b, id),
    decreases b.len(),
{
    if b.len() == 0 {
        assert(a + b =~= a);
        assert(buffer_entries(a, id) + buffer_entries(b, id) =~= buffer_entries(a, id));
    } else {
        lemma_buffer_entries_concat(a, b.drop_last(), id);
        assert((a + b).drop_last() =~= a + b.drop_last());
        assert((a + b).last() == b.last());
        if b.last().buffer_id == Some(id) {
            assert(buffer_entries(a, id) + buffer_entries(b.drop_last(), id).push(b.last())
                =~= (buffer_entries(a, id) + buffer_entries(b.drop_last(), id)).push(b.last()));
        }
    }
}

proof fn lemma_buffer_entries_single(e: SortEntry, id: BufferId)
    ensures
        e.buffer_id != Some(id) ==> buffer_entries(seq![e], id) == Seq::<SortEntry>::empty(),
{
    assert(seq![e].drop_last() =~= Seq::<SortEntry>::empty());
    assert(seq![e].last() == e);
    assert(buffer_entries(Seq::<SortEntry>::empty(), id) == Seq::<SortEntry>::empty());
}

/// Putting a sort of another buffer anywhere leaves the sorts of `id` as
/// they were.
proof fn lemma_buffer_entries_insert(s: Seq<SortEntry>, i: int, e: SortEntry, id: BufferId)
    requires
        0 <= i <= s.len(),
        e.buffer_id != Some(id),
    ensures
        buffer_entries(s.insert(i, e), id) == buffer_entries(s, id),
{
    let a = s.take(i);
    let b = s.skip(i);
    assert(s.insert(i, e) =~= a + seq![e] + b);
    assert(s =~= a + b);
    lemma_buffer_entries_concat(a + seq![e], b, id);
    lemma_buffer_entries_concat(a, seq![e], id);
    lemma_buffer_entries_concat(a, b, id);
    lemma_buffer_entries_single(e, id);
    assert(buffer_entries(a, id) + Seq::<SortEntry>::empty() =~= buffer_entries(a, id));
}

/// Changing a sort of another buffer into another sort of another buffer
/// leaves the sorts of `id` as they were.
proof fn lemma_buffer_entries_update(s: Seq<SortEntry>, i: int, e: SortEntry, id: BufferId)
    requires
        0 <= i < s.len(),
        s[i].buffer_id != Some(id),
        e.buffer_id != Some(id),
    ensures
        buffer_entries(s.update(i, e), id) == buffer_entries(s, id),
{
    let a = s.take(i);
    let b = s.skip(i + 1);
    assert(s.update(i, e) =~= a + seq![e] + b);
    assert(s =~= a + seq![s[i]] + b);
    lemma_buffer_entries_concat(a + seq![e], b, id);
    lemma_buffer_entries_concat(a, seq![e], id);
    lemma_buffer_entries_concat(a + seq![s[i]], b, id);
    lemma_buffer_entries_concat(a, seq![s[i]], id);
    lemma_buffer_entries_single(e, id);
    lemma_buffer_entries_single(s[i], id);
}

/// Typing into the active buffer leaves the sorts of every other buffer as
/// they were, in order: the new glyph joins the buffer of the active root,
/// and only that root's cursor moves.
pub proof fn lemma_typing_keeps_other_buffers(
    s: Seq<SortEntry>,
    name: String,
    advance_width: F32Bits,
    codepoint: Option<char>,
    new_id: BufferId,
    other: BufferId,
)
    requires
        active_root(s) matches Some(r) && s[r].buffer_id != Some(other),
    ensures
        buffer_entries(spec_insert_with_respawn(s, name, advance_width, codepoint, new_id), other)
            == buffer_entries(s, other),
{
    let r = active_root(s)->0;
    lemma_active_root_in_range(s);
    let at = typing_index(s, r);
    let e = typed_glyph(name, advance_width, codepoint, s[r]);
    let t = s.insert(at, e);
    lemma_buffer_entries_insert(s, at, e, other);
    assert(t[r] == s[r]);
    lemma_buffer_entries_update(
        t,
        r,
        SortEntry { buffer_cursor_position: Some((at - r + 1) as usize), ..t[r] },
        other,
    );
}

/// The active root lies inside the sequence.
proof fn lemma_active_root_in_range(s: Seq<SortEntry>)
    ensures
        active_root(s) matches Some(r) ==> 0 <= r < s.len(),
{
    lemma_first_from_in_range(s, |e: SortEntry| active_root_entry(e), 0);
    lemma_first_from_in_range(s, |e: SortEntry| root_with_cursor(e), 0);
    lemma_last_before(s, |e: SortEntry| is_root(e), s.len() as int);
}

proof fn lemma_first_from_in_range(s: Seq<SortEntry>, pred: spec_fn(SortEntry) -> bool, i: int)
    ensures
        first_from(s, pred, i) matches Some(k) ==> i <= k < s.len() && 0 <= k,
    decreases s.len() - i,
{
    if 0 <= i < s.len() && !pred(s[i]) {
        lemma_first_from_in_range(s, pred, i + 1);
    }
}

/// What `first_from` finds: the first match from `i` on.
proof fn lemma_first_from_spec(s: Seq<SortEntry>, pred: spec_fn(SortEntry) -> bool, i: int)
    requires
        0 <= i,
    ensures
        first_from(s, pred, i) matches Some(j) ==> i <= j < s.len() && pred(s[j]) && forall|k: int|
            i <= k < j ==> !pred(#[trigger] s[k]),
        first_from(s, pred, i) is None ==> forall|k: int| i <= k < s.len() ==> !pred(#[trigger] s[k]),
    decreases s.len() - i,
{
    if i < s.len() && !pred(s[i]) {
        lemma_first_from_spec(s, pred, i + 1);
    }
}

/// A first match from `i` on is what `first_from` finds.
proof fn lemma_first_from_is(s: Seq<SortEntry>, pred: spec_fn(SortEntry) -> bool, i: int, j: int)
    requires
        0 <= i <= j < s.len(),
        pred(s[j]),
        forall|k: int| i <= k < j ==> !pred(#[trigger] s[k]),
    ensures
        first_from(s, pred, i) == Some(j),
    decreases j - i,
{
    if i < j {
        lemma_first_from_is(s, pred, i + 1, j);
    }
}

/// With no match from `i` on, `first_from` finds nothing.
proof fn lemma_first_from_none(s: Seq<SortEntry>, pred: spec_fn(SortEntry) -> bool, i: int)
    requires
        0 <= i,
        forall|k: int| i <= k < s.len() ==> !pred(#[trigger] s[k]),
    ensures
        first_from(s, pred, i) is None,
    decreases s.len() - i,
{
    if i < s.len() {
        lemma_first_from_none(s, pred, i + 1);
    }
}

/// Typing a glyph at the cursor of the active buffer and then pressing
/// backspace restores every sort, the root's cursor included, when the
/// cursor stands after the root and within the sorts (and one more sort
/// fits in memory, as typing requires).
pub proof fn lemma_backspace_undoes_typing(
    s: Seq<SortEntry>,
    name: String,
    advance_width: F32Bits,
    codepoint: Option<char>,
    buffer_id: BufferId,
)
    requires
        active_root(s) matches Some(r) && 1 <= cursor_of(s, r) && r + cursor_of(s, r) <= s.len(),
        s.len() + 1 <= usize::MAX,
    ensures
        spec_delete_at_cursor(spec_insert_with_respawn(s, name, advance_width, codepoint, buffer_id))
            == s,
{
    let r = active_root(s)->0;
    lemma_active_root_in_range(s);
    let c = cursor_of(s, r);
    let at = typing_index(s, r);
    assert(at == r + c);
    let e = typed_glyph(name, advance_width, codepoint, s[r]);
    let t = s.insert(at, e);
    let u = with_cursor(t, r, c + 1);
    assert(u == spec_insert_with_respawn(s, name, advance_width, codepoint, buffer_id));
    assert(u.len() == s.len() + 1);
    // The typed glyph is neither a root nor active: every other entry keeps
    // what decides the active root.
    assert forall|k: int| 0 <= k < u.len() implies (active_root_entry(#[trigger] u[k])
        == (if k < at { active_root_entry(s[k]) } else if k == at { false } else {
        active_root_entry(s[k - 1]) })) && (root_with_cursor(u[k]) == (if k < at {
        root_with_cursor(s[k])
    } else if k == at {
        false
    } else {
        root_with_cursor(s[k - 1])
    })) by {
        if k < at {
            assert(t[k] == s[k]);
        } else if k > at {
            assert(t[k] == s[k - 1]);
        }
    }
    let pa = |x: SortEntry| active_root_entry(x);
    let pc = |x: SortEntry| root_with_cursor(x);
    lemma_first_from_spec(s, pa, 0);
    lemma_first_from_spec(s, pc, 0);
    match first_from(s, pa, 0) {
        Some(j) => {
            assert(j == r);
            assert forall|k: int| 0 <= k < r implies !pa(#[trigger] u[k]) by {
                assert(!pa(s[k]));
            }
            lemma_first_from_is(u, pa, 0, r);
        },
        None => {
            assert forall|k: int| 0 <= k < u.len() implies !pa(#[trigger] u[k]) by {
                if k < at {
                    assert(!pa(s[k]));
                } else if k > at {
                    assert(!pa(s[k - 1]));
                }
            }
            lemma_first_from_none(u, pa, 0);
            assert(root_with_cursor(s[r])) by {
                lemma_last_before(s, |x: SortEntry| is_root(x), s.len() as int);
            }
            match first_from(s, pc, 0) {
                Some(j) => {
                    assert(j == r);
                    assert forall|k: int| 0 <= k < r implies !pc(#[trigger] u[k]) by {
                        assert(!pc(s[k]));
                    }
                    lemma_first_from_is(u, pc, 0, r);
                },
                None => {
                    assert(!pc(s[r]));
                },
            }
        },
    }
    assert(active_root(u) == Some(r));
    assert(cursor_of(u, r) == c + 1);
    assert(u[r].buffer_id == s[r].buffer_id);
    assert(u[at] == e);
    assert(in_buffer_body(u, r + (c + 1) - 1, u[r].buffer_id));
    let v = u.remove(at);
    assert(v =~= s.update(r, SortEntry { buffer_cursor_position: Some((c + 1) as usize), ..s[r] }));
    assert(with_cursor(v, r, c) =~= s);
}

/// The last match before `n` is a match with no match after it before `n`;
/// with no match, nothing before `n` matches.
proof fn lemma_last_before_spec(s: Seq<SortEntry>, pred: spec_fn(SortEntry) -> bool, n: int)
    requires
        0 <= n <= s.len(),
    ensures
        last_before(s, pred, n) matches Some(j) ==> 0 <= j < n && pred(s[j]) && forall|k: int|
            j < k < n ==> !pred(#[trigger] s[k]),
        last_before(s, pred, n) is None ==> forall|k: int| 0 <= k < n ==> !pred(#[trigger] s[k]),
    decreases n,
{
    if n > 0 {
        lemma_last_before_spec(s, pred, n - 1);
    }
}

/// Moving up goes to the previous buffer: when a buffer root lies before the
/// active one, the root that becomes active is the nearest root before it
/// (no root lies between the two), with its cursor at the end of its text;
/// no other sort changes.  With no root before the active one, nothing
/// changes.
pub proof fn lemma_move_up_goes_to_previous_root(s: Seq<SortEntry>)
    requires
        active_root(s) is Some,
    ensures
        ({
            let r = active_root(s)->0;
            let t = spec_move_cursor_up(s);
            if exists|k: int| 0 <= k < r && (#[trigger] s[k]).is_buffer_root {
                &&& active_root(t) matches Some(p) && 0 <= p < r && s[p].is_buffer_root
                    && (forall|k: int| p < k < r ==> !(#[trigger] s[k]).is_buffer_root)
                    && t[p].is_active && !t[r].is_active
                    && t.len() == s.len()
                    && (forall|k: int| 0 <= k < s.len() && k != p && k != r ==> #[trigger] t[k] == s[k])
            } else {
                t == s
            }
        }),
{
    lemma_active_root_in_range(s);
    let r = active_root(s)->0;
    let roots = |e: SortEntry| is_root(e);
    lemma_last_before_spec(s, roots, r);
    let t = spec_move_cursor_up(s);
    if exists|k: int| 0 <= k < r && (#[trigger] s[k]).is_buffer_root {
        let k0 = choose|k: int| 0 <= k < r && (#[trigger] s[k]).is_buffer_root;
        assert(roots(s[k0]));
        let p = last_before(s, roots, r)->0;
        let act = |e: SortEntry| active_root_entry(e);
        lemma_first_from_spec(s, act, 0);
        assert forall|k: int| 0 <= k < p implies !act(#[trigger] t[k]) by {
            assert(t[k] == s[k]);
            if first_from(s, act, 0) is Some {
                assert(first_from(s, act, 0) == Some(r));
            }
        }
        assert(act(t[p]));
        lemma_first_from_is(t, act, 0, p);
        assert(active_root(t) == Some(p));
    }
}

/// Moving down goes to the next buffer: when a buffer root lies after the
/// active one, the root that becomes active is the nearest root after it,
/// with its cursor at the start; no other sort changes.  With no root after
/// the active one, nothing changes.
pub proof fn lemma_move_down_goes_to_next_root(s: Seq<SortEntry>)
    requires
        active_root(s) is Some,
    ensures
        ({
            let r = active_root(s)->0;
            let t = spec_move_cursor_down(s);
            if exists|k: int| r < k < s.len() && (#[trigger] s[k]).is_buffer_root {
                &&& active_root(t) matches Some(q) && r < q < s.len() && s[q].is_buffer_root
                    && (forall|k: int| r < k < q ==> !(#[trigger] s[k]).is_buffer_root)
                    && t[q].buffer_cursor_position == Some(0usize)
                    && t[q].is_active && !t[r].is_active
                    && t.len() == s.len()
                    && (forall|k: int| 0 <= k < s.len() && k != q && k != r ==> #[trigger] t[k] == s[k])
            } else {
                t == s
            }
        }),
{
    lemma_active_root_in_range(s);
    let r = active_root(s)->0;
    let roots = |e: SortEntry| is_root(e);
    lemma_first_from_spec(s, roots, r + 1);
    let t = spec_move_cursor_down(s);
    if exists|k: int| r < k < s.len() && (#[trigger] s[k]).is_buffer_root {
        let k0 = choose|k: int| r < k < s.len() && (#[trigger] s[k]).is_buffer_root;
        assert(roots(s[k0]));
        let q = first_from(s, roots, r + 1)->0;
        let act = |e: SortEntry| active_root_entry(e);
        lemma_first_from_spec(s, act, 0);
        assert forall|k: int| 0 <= k < q implies !act(#[trigger] t[k]) by {
            if k != r {
                assert(t[k] == s[k]);
                if k < r && first_from(s, act, 0) is Some {
                    assert(first_from(s, act, 0) == Some(r));
                }
                if r < k {
                    assert(!roots(s[k]));
                }
            }
        }
        assert(act(t[q]));
        lemma_first_from_is(t, act, 0, q);
        assert(active_root(t) == Some(q));
    }
}

/// `idx` lists, in increasing order, exactly the glyph positions in
/// `lo..hi`.
pub open spec fn lists_glyphs(s: Seq<SortEntry>, idx: Seq<int>, lo: int, hi: int) -> bool {
    &&& forall|i: int| 0 <= i < idx.len() ==> lo <= #[trigger] idx[i] < hi && s[idx[i]].kind is Glyph
    &&& forall|i: int, j: int| 0 <= i < j < idx.len() ==> #[trigger] idx[i] < #[trigger] idx[j]
    &&& forall|k: int| lo <= k < hi && (#[trigger] s[k]).kind is Glyph ==> idx.contains(k)
}

proof fn lemma_glyphs_between(s: Seq<SortEntry>, lo: int, hi: int)
    requires
        0 <= lo,
        hi <= s.len(),
    ensures
        lists_glyphs(s, glyphs_between(s, lo, hi), lo, hi),
    decreases hi - lo,
{
    if hi > lo {
        lemma_glyphs_between(s, lo, hi - 1);
        let g = glyphs_between(s, lo, hi - 1);
        if s[hi - 1].kind is Glyph {
            let h = g.push(hi - 1);
            assert forall|k: int| lo <= k < hi && (#[trigger] s[k]).kind is Glyph implies h.contains(
                k,
            ) by {
                if k < hi - 1 {
                    let i = choose|i: int| 0 <= i < g.len() && g[i] == k;
                    assert(h[i] == k);
                } else {
                    assert(h[g.len() as int] == k);
                }
            }
        } else {
            assert forall|k: int| lo <= k < hi && (#[trigger] s[k]).kind is Glyph implies g.contains(
                k,
            ) by {
                assert(k < hi - 1);
            }
        }
    }
}

/// Where the flow plan places a text sort: from the nearest root of its own
/// buffer at or before it (no root of that buffer lies between them), by
/// the advances of exactly the glyphs after that root up to and including
/// the sort going left-to-right, or, going right-to-left, the glyphs
/// between them followed by the sort's own advance; a right-to-left line
/// break stays at the root.  A sort that is not text, belongs to no buffer
/// or has no root of its buffer before it has no plan.
pub proof fn lemma_flow_plan_places_from_own_root(s: Seq<SortEntry>, p: int)
    requires
        0 <= p < s.len(),
    ensures
        spec_buffer_flow_plan(s, p) is None <==> (!is_text_mode(s[p].layout_mode)
            || s[p].buffer_id is None || forall|k: int|
            0 <= k <= p ==> !((#[trigger] s[k]).is_buffer_root && s[k].buffer_id == s[p].buffer_id)),
        spec_buffer_flow_plan(s, p) matches Some((root, shape)) ==> {
            &&& 0 <= root <= p
            &&& s[root].is_buffer_root && s[root].buffer_id == s[p].buffer_id
            &&& forall|k: int|
                root < k <= p ==> !((#[trigger] s[k]).is_buffer_root && s[k].buffer_id
                    == s[p].buffer_id)
            &&& (shape is None <==> root == p)
            &&& (shape matches Some((idx, own)) ==> if s[p].layout_mode == SortLayoutMode::LTRText {
                own is None && lists_glyphs(s, idx, root + 1, p + 1)
            } else if s[p].kind is Glyph {
                own == Some(p) && lists_glyphs(s, idx, root + 1, p)
            } else {
                own is None && idx.len() == 0
            })
        },
{
    if is_text_mode(s[p].layout_mode) && s[p].buffer_id is Some {
        let id = s[p].buffer_id->0;
        let pred = |e: SortEntry| e.is_buffer_root && e.buffer_id == Some(id);
        lemma_last_before_spec(s, pred, p + 1);
        assert(buffer_root_at_or_before(s, id, p) == last_before(s, pred, p + 1));
        match last_before(s, pred, p + 1) {
            Some(root) => {
                if root < p {
                    lemma_glyphs_between(s, root + 1, p + 1);
                    lemma_glyphs_between(s, root + 1, p);
                }
            },
            None => {
                assert forall|k: int| 0 <= k <= p implies !((#[trigger] s[k]).is_buffer_root
                    && s[k].buffer_id == s[p].buffer_id) by {
                    assert(!pred(s[k]));
                }
            },
        }
    }
}

/// The line starts of a text: 0, then the offset from the root of every
/// line break after it, in increasing order, and nothing else.
pub proof fn lemma_line_starts_are_line_breaks(s: Seq<SortEntry>, root: int, n: int)
    requires
        0 <= root < n <= s.len(),
    ensures
        ({
            let st = line_starts_upto(s, root, n);
            &&& st.len() >= 1 && st[0] == 0
            &&& forall|i: int, j: int| 0 <= i < j < st.len() ==> #[trigger] st[i] < #[trigger] st[j]
            &&& forall|i: int| 1 <= i < st.len() ==> root < root + #[trigger] st[i] < n
                && s[root + st[i]].kind is LineBreak
            &&& forall|k: int| root < k < n && (#[trigger] s[k]).kind is LineBreak ==> st.contains(
                (k - root) as nat,
            )
        }),
    decreases n - root,
{
    let st = line_starts_upto(s, root, n);
    if n > root + 1 {
        lemma_line_starts_are_line_breaks(s, root, n - 1);
        let h = line_starts_upto(s, root, n - 1);
        if s[n - 1].kind is LineBreak {
            assert(st == h.push((n - 1 - root) as nat));
            assert forall|k: int| root < k < n && (#[trigger] s[k]).kind is LineBreak implies st.contains(
                (k - root) as nat,
            ) by {
                if k < n - 1 {
                    let i = choose|i: int| 0 <= i < h.len() && h[i] == (k - root) as nat;
                    assert(st[i] == h[i]);
                } else {
                    assert(st[h.len() as int] == (k - root) as nat);
                }
            }
            assert forall|i: int, j: int| 0 <= i < j < st.len() implies #[trigger] st[i]
                < #[trigger] st[j] by {
                if j < h.len() {
                    assert(st[i] == h[i] && st[j] == h[j]);
                } else {
                    assert(st[i] == h[i]);
                    if i >= 1 {
                        assert(root + h[i] < n - 1);
                    }
                }
            }
        } else {
            assert forall|k: int| root < k < n && (#[trigger] s[k]).kind is LineBreak implies st.contains(
                (k - root) as nat,
            ) by {
                assert(k < n - 1);
            }
        }
    }
}

proof fn lemma_first_from_same_pred(
    a: Seq<SortEntry>,
    b: Seq<SortEntry>,
    pred: spec_fn(SortEntry) -> bool,
    i: int,
)
    requires
        a.len() == b.len(),
        forall|k: int| 0 <= k < a.len() ==> pred(#[trigger] a[k]) == pred(b[k]),
    ensures
        first_from(a, pred, i) == first_from(b, pred, i),
    decreases a.len() - i,
{
    if 0 <= i < a.len() {
        lemma_first_from_same_pred(a, b, pred, i + 1);
    }
}

proof fn lemma_last_before_same_pred(
    a: Seq<SortEntry>,
    b: Seq<SortEntry>,
    pred: spec_fn(SortEntry) -> bool,
    n: int,
)
    requires
        a.len() == b.len(),
        forall|k: int| 0 <= k < a.len() ==> pred(#[trigger] a[k]) == pred(b[k]),
    ensures
        last_before(a, pred, n) == last_before(b, pred, n),
    decreases n,
{
    if 0 < n <= a.len() {
        lemma_last_before_same_pred(a, b, pred, n - 1);
    }
}

/// Giving the active root, which has a cursor, another cursor keeps it the
/// active root.
proof fn lemma_active_root_after_cursor(s: Seq<SortEntry>, r: int, c: nat)
    requires
        active_root(s) == Some(r),
        s[r].buffer_cursor_position is Some,
    ensures
        active_root(with_cursor(s, r, c)) == Some(r),
{
    lemma_active_root_in_range(s);
    let t = with_cursor(s, r, c);
    let act = |e: SortEntry| active_root_entry(e);
    let cur = |e: SortEntry| root_with_cursor(e);
    let roots = |e: SortEntry| is_root(e);
    assert forall|k: int| 0 <= k < s.len() implies act(#[trigger] s[k]) == act(t[k]) && cur(s[k])
        == cur(t[k]) && roots(s[k]) == roots(t[k]) by {}
    lemma_first_from_same_pred(s, t, act, 0);
    lemma_first_from_same_pred(s, t, cur, 0);
    lemma_last_before_same_pred(s, t, roots, s.len() as int);
}

/// Moving right moves the active buffer's cursor one step towards the end
/// of its text (and not past it); moving left one step towards the start
/// (and not below it).  The active buffer stays the same.
pub proof fn lemma_move_cursor_steps_by_one(s: Seq<SortEntry>)
    requires
        active_root(s) matches Some(r) && s[r].buffer_cursor_position is Some,
        s.len() + 1 <= usize::MAX,
    ensures
        ({
            let r = active_root(s)->0;
            let c = cursor_of(s, r);
            &&& active_root(spec_move_cursor_right(s)) == Some(r)
            &&& c < sequence_length(s, r) ==> cursor_of(spec_move_cursor_right(s), r) == c + 1
            &&& c >= sequence_length(s, r) ==> spec_move_cursor_right(s) == s
            &&& active_root(spec_move_cursor_left(s)) == Some(r)
            &&& c > 0 ==> cursor_of(spec_move_cursor_left(s), r) + 1 == c
            &&& c == 0 ==> spec_move_cursor_left(s) == s
        }),
{
    lemma_active_root_in_range(s);
    let r = active_root(s)->0;
    let c = cursor_of(s, r);
    lemma_sequence_length_bound(s, r, r);
    lemma_active_root_after_cursor(s, r, c + 1);
    if c > 0 {
        lemma_active_root_after_cursor(s, r, (c - 1) as nat);
    }
}

proof fn lemma_sequence_length_bound(s: Seq<SortEntry>, root: int, i: int)
    requires
        0 <= i,
    ensures
        sequence_length_from(s, root, i) <= if i <= s.len() { s.len() - i } else { 0 },
    decreases s.len() - i,
{
    if i < s.len() {
        lemma_sequence_length_bound(s, root, i + 1);
    }
}

/// Whether two sorts belong to the same buffer (or both to none).
fn same_buffer(a: Option<BufferId>, b: Option<BufferId>) -> (r: bool)
    ensures
        r == (a == b),
{
    match (a, b) {
        (Some(x), Some(y)) => x.0 == y.0,
        (None, None) => true,
        _ => false,
    }
}

} // verus!
