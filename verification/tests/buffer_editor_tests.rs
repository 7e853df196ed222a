use bezy::buffer_editor::{
    get_default_glyph_for_direction, BufferFlowPlan, BufferId, SortEntry, SortKind,
    SortLayoutMode, SortPlacement, TextEditorState,
};
use bezy::text_editor::{F32Bits, Vec2Bits};

fn pos(x: f32, y: f32) -> Vec2Bits {
    Vec2Bits { x: F32Bits(x.to_bits()), y: F32Bits(y.to_bits()) }
}

fn glyph_name(e: &SortEntry) -> String {
    e.kind.glyph_name().to_string()
}

fn advance(e: &SortEntry) -> f32 {
    match &e.kind {
        SortKind::Glyph { advance_width, .. } => f32::from_bits(advance_width.0),
        SortKind::LineBreak => 0.0,
    }
}

fn freeform(name: &str) -> SortEntry {
    SortEntry {
        kind: SortKind::Glyph {
            codepoint: None,
            glyph_name: name.to_string(),
            advance_width: F32Bits(600.0f32.to_bits()),
        },
        is_active: true,
        layout_mode: SortLayoutMode::Freeform,
        root_position: pos(1.0, 2.0),
        is_buffer_root: false,
        buffer_cursor_position: None,
        buffer_id: None,
    }
}

#[test]
fn buffer_editor_ltr_root_holds_latin_placeholder() {
    let mut ed = TextEditorState::default();
    ed.create_text_root(pos(100.0, 200.0), SortLayoutMode::LTRText, BufferId(7));
    assert_eq!(ed.buffer.len(), 1);
    let root = ed.buffer.get(0).unwrap();
    assert_eq!(glyph_name(root), "a");
    assert_eq!(root.kind.codepoint(), Some('a'));
    assert_eq!(advance(root), 500.0);
    assert!(root.is_active);
    assert!(root.is_buffer_root);
    assert_eq!(root.buffer_cursor_position, Some(1));
    assert_eq!(root.buffer_id, Some(BufferId(7)));
    assert_eq!(root.root_position, pos(100.0, 200.0));
}

#[test]
fn buffer_editor_rtl_root_holds_alef() {
    let mut ed = TextEditorState::default();
    ed.create_text_root_with_fontir(
        pos(0.0, 0.0),
        SortLayoutMode::RTLText,
        Some(F32Bits(320.0f32.to_bits())),
        BufferId(3),
    );
    let root = ed.buffer.get(0).unwrap();
    assert_eq!(glyph_name(root), "alef-ar");
    assert_eq!(root.kind.codepoint(), Some('\u{0627}'));
    assert_eq!(advance(root), 320.0);
    assert_eq!(root.buffer_cursor_position, Some(0));
    assert_eq!(root.layout_mode, SortLayoutMode::RTLText);
}

#[test]
fn buffer_editor_rtl_typing_inherits_buffer_and_moves_cursor() {
    let mut ed = TextEditorState::default();
    ed.create_text_root(pos(1000.0, 0.0), SortLayoutMode::RTLText, BufferId(5));
    ed.insert_sort_at_cursor("beh-ar".to_string(), F32Bits(100.0f32.to_bits()), Some('\u{0628}'), BufferId(99));
    ed.insert_sort_at_cursor("teh-ar".to_string(), F32Bits(150.0f32.to_bits()), Some('\u{062A}'), BufferId(99));
    assert_eq!(ed.buffer.len(), 3);
    assert_eq!(glyph_name(ed.buffer.get(1).unwrap()), "beh-ar");
    assert_eq!(glyph_name(ed.buffer.get(2).unwrap()), "teh-ar");
    let typed = ed.buffer.get(2).unwrap();
    assert_eq!(typed.buffer_id, Some(BufferId(5)));
    assert_eq!(typed.layout_mode, SortLayoutMode::RTLText);
    assert!(!typed.is_active);
    assert!(!typed.is_buffer_root);
    // The cursor of a right-to-left root starts before it; typing goes
    // right after the root and the cursor moves past each typed glyph.
    assert_eq!(ed.buffer.get(0).unwrap().buffer_cursor_position, Some(3));
}

#[test]
fn buffer_editor_typing_without_buffer_starts_one() {
    let mut ed = TextEditorState::default();
    ed.buffer.insert(0, freeform("x"));
    ed.insert_sort_at_cursor_with_respawn("h".to_string(), F32Bits(90.0f32.to_bits()), Some('h'), BufferId(4));
    assert_eq!(ed.buffer.len(), 2);
    assert!(!ed.buffer.get(0).unwrap().is_active);
    let root = ed.buffer.get(1).unwrap();
    assert_eq!(glyph_name(root), "h");
    assert!(root.is_active && root.is_buffer_root);
    assert_eq!(root.layout_mode, SortLayoutMode::LTRText);
    assert_eq!(root.buffer_cursor_position, Some(1));
    assert_eq!(root.buffer_id, Some(BufferId(4)));
    assert_eq!(root.root_position, pos(500.0, 0.0));
}

#[test]
fn buffer_editor_queries_by_buffer_id() {
    let mut ed = TextEditorState::default();
    ed.buffer.insert(0, freeform("x"));
    ed.create_text_root(pos(0.0, 0.0), SortLayoutMode::RTLText, BufferId(8));
    ed.insert_sort_at_cursor("beh-ar".to_string(), F32Bits(0), None, BufferId(99));
    ed.create_text_root(pos(0.0, 500.0), SortLayoutMode::LTRText, BufferId(9));
    // sorts: [x, root8, beh8, root9]
    let ids = ed.get_all_buffer_ids();
    assert_eq!(ids, vec![BufferId(8), BufferId(9)]);
    let in8: Vec<usize> = ed.get_sorts_for_buffer(BufferId(8)).iter().map(|(i, _)| *i).collect();
    assert_eq!(in8, vec![1, 2]);
    let root9 = ed.find_buffer_root(BufferId(9)).map(|(i, _)| i);
    assert_eq!(root9, Some(3));
    assert!(ed.find_buffer_root(BufferId(10)).is_none());
    let text: Vec<usize> = ed.get_text_sorts().iter().map(|(i, _)| *i).collect();
    assert_eq!(text, vec![1, 2, 3]);
    // Each new root is the only active sort: editing goes to it.
    assert_eq!(ed.find_active_buffer_root_index(), Some(3));
    assert!(!ed.buffer.get(0).unwrap().is_active);
    assert!(!ed.buffer.get(1).unwrap().is_active);
}

#[test]
fn buffer_editor_rtl_flow_plan_goes_backward() {
    let mut ed = TextEditorState::default();
    ed.create_text_root(pos(1000.0, 0.0), SortLayoutMode::RTLText, BufferId(5));
    ed.insert_sort_at_cursor("beh-ar".to_string(), F32Bits(100.0f32.to_bits()), None, BufferId(99));
    ed.insert_sort_at_cursor("teh-ar".to_string(), F32Bits(150.0f32.to_bits()), None, BufferId(99));
    match ed.buffer_flow_plan(0) {
        Some(BufferFlowPlan::Root { root_index }) => assert_eq!(root_index, 0),
        _ => panic!("root plan expected"),
    }
    match ed.buffer_flow_plan(1) {
        Some(BufferFlowPlan::Backward { root_index, advance_indices, own_index }) => {
            assert_eq!(root_index, 0);
            assert!(advance_indices.is_empty());
            assert_eq!(own_index, 1);
        }
        _ => panic!("backward plan expected"),
    }
    match ed.buffer_flow_plan(2) {
        Some(BufferFlowPlan::Backward { root_index, advance_indices, own_index }) => {
            assert_eq!(root_index, 0);
            assert_eq!(advance_indices, vec![1]);
            assert_eq!(own_index, 2);
            // Right edge of 'teh' at the left edge of 'beh': 1000 - 100 - 150.
            let mut left = 0.0f32;
            for i in advance_indices {
                left -= advance(ed.buffer.get(i).unwrap());
            }
            let x = 1000.0f32 + (left - advance(ed.buffer.get(own_index).unwrap()));
            assert_eq!(x, 750.0);
        }
        _ => panic!("backward plan expected"),
    }
    assert!(ed.buffer_flow_plan(3).is_none());
}

#[test]
fn buffer_editor_ltr_flow_plan_adds_glyphs_before() {
    let mut ed = TextEditorState::default();
    ed.create_text_root(pos(100.0, 200.0), SortLayoutMode::LTRText, BufferId(1));
    let glyph = |name: &str, w: f32| SortEntry {
        kind: SortKind::Glyph { codepoint: None, glyph_name: name.to_string(), advance_width: F32Bits(w.to_bits()) },
        is_active: false,
        layout_mode: SortLayoutMode::LTRText,
        root_position: pos(0.0, 0.0),
        is_buffer_root: false,
        buffer_cursor_position: None,
        buffer_id: Some(BufferId(1)),
    };
    ed.buffer.insert(1, glyph("a", 100.0));
    ed.buffer.insert(2, SortEntry { kind: SortKind::LineBreak, ..glyph("", 0.0) });
    ed.buffer.insert(3, glyph("b", 150.0));
    ed.buffer.insert(4, glyph("c", 120.0));
    match ed.buffer_flow_plan(4) {
        Some(BufferFlowPlan::Forward { root_index, advance_indices }) => {
            assert_eq!(root_index, 0);
            // Edge to edge: the glyphs up to and including the sort itself.
            assert_eq!(advance_indices, vec![1, 3, 4]);
        }
        _ => panic!("forward plan expected"),
    }
    // A sort of another buffer finds no root of its own before it.
    ed.buffer.insert(5, SortEntry { buffer_id: Some(BufferId(2)), ..glyph("d", 10.0) });
    assert!(ed.buffer_flow_plan(5).is_none());
}

#[test]
fn buffer_editor_backspace_removes_sort_before_cursor_then_root() {
    let mut ed = TextEditorState::default();
    ed.create_text_root(pos(0.0, 0.0), SortLayoutMode::RTLText, BufferId(5));
    ed.insert_sort_at_cursor("beh-ar".to_string(), F32Bits(0), None, BufferId(99));
    ed.insert_sort_at_cursor("teh-ar".to_string(), F32Bits(0), None, BufferId(99));
    ed.delete_sort_at_cursor();
    assert_eq!(ed.buffer.len(), 2);
    assert_eq!(glyph_name(ed.buffer.get(1).unwrap()), "beh-ar");
    assert_eq!(ed.buffer.get(0).unwrap().buffer_cursor_position, Some(2));
    ed.delete_sort_at_cursor();
    assert_eq!(ed.buffer.len(), 1);
    assert_eq!(ed.buffer.get(0).unwrap().buffer_cursor_position, Some(1));
    ed.delete_sort_at_cursor();
    assert_eq!(ed.buffer.len(), 0);
    ed.delete_sort_at_cursor();
    assert_eq!(ed.buffer.len(), 0);
}

#[test]
fn buffer_editor_default_glyph_per_direction() {
    assert_eq!(get_default_glyph_for_direction(&SortLayoutMode::RTLText), ("alef-ar".to_string(), '\u{0627}'));
    assert_eq!(get_default_glyph_for_direction(&SortLayoutMode::LTRText), ("a".to_string(), 'a'));
    assert_eq!(get_default_glyph_for_direction(&SortLayoutMode::Freeform), ("a".to_string(), 'a'));
}

#[test]
fn buffer_editor_display_strings() {
    let a = SortKind::Glyph { codepoint: Some('a'), glyph_name: "a".to_string(), advance_width: F32Bits(0) };
    assert_eq!(a.display_string(), "U+0061");
    let big = SortKind::Glyph { codepoint: Some('\u{1F600}'), glyph_name: "smile".to_string(), advance_width: F32Bits(0) };
    assert_eq!(big.display_string(), "U+1F600");
    let named = SortKind::Glyph { codepoint: None, glyph_name: "a.alt".to_string(), advance_width: F32Bits(0) };
    assert_eq!(named.display_string(), "a.alt");
    assert_eq!(SortKind::LineBreak.display_string(), "\u{21b5}");
    assert!(SortKind::LineBreak.is_line_break());
    assert!(!SortKind::LineBreak.is_glyph());
    assert_eq!(SortKind::LineBreak.codepoint(), None);
    assert_eq!(SortKind::LineBreak.glyph_name(), "");
}

fn typed(ed: &mut TextEditorState, name: &str, w: f32) {
    ed.insert_sort_at_cursor(name.to_string(), F32Bits(w.to_bits()), None, BufferId(1000));
}

#[test]
fn buffer_editor_cursor_moves_within_sequence() {
    let mut ed = TextEditorState::default();
    ed.create_text_root(pos(0.0, 0.0), SortLayoutMode::RTLText, BufferId(1));
    typed(&mut ed, "beh-ar", 10.0);
    typed(&mut ed, "teh-ar", 10.0);
    // The alef root counts: it is not the Latin placeholder.
    assert_eq!(ed.get_buffer_sequence_length(0), 3);
    ed.move_cursor_to(99);
    assert_eq!(ed.buffer.get(0).unwrap().buffer_cursor_position, Some(3));
    ed.move_cursor_right();
    assert_eq!(ed.buffer.get(0).unwrap().buffer_cursor_position, Some(3));
    ed.move_cursor_left();
    ed.move_cursor_left();
    assert_eq!(ed.buffer.get(0).unwrap().buffer_cursor_position, Some(1));
    ed.move_cursor_to(0);
    ed.move_cursor_left();
    assert_eq!(ed.buffer.get(0).unwrap().buffer_cursor_position, Some(0));
    ed.move_cursor_right();
    assert_eq!(ed.buffer.get(0).unwrap().buffer_cursor_position, Some(1));
}

#[test]
fn buffer_editor_latin_placeholder_does_not_count() {
    let mut ed = TextEditorState::default();
    ed.create_text_root(pos(0.0, 0.0), SortLayoutMode::LTRText, BufferId(1));
    assert_eq!(ed.get_buffer_sequence_length(0), 0);
    ed.move_cursor_to(5);
    assert_eq!(ed.buffer.get(0).unwrap().buffer_cursor_position, Some(0));
}

#[test]
fn buffer_editor_moves_between_buffers() {
    let mut ed = TextEditorState::default();
    ed.create_text_root(pos(0.0, 0.0), SortLayoutMode::RTLText, BufferId(1));
    typed(&mut ed, "beh-ar", 10.0);
    ed.create_text_root(pos(0.0, 900.0), SortLayoutMode::RTLText, BufferId(2));
    // sorts: [root1, beh, root2]; go back to the first buffer.
    assert!(ed.activate_sort(0));
    ed.move_cursor_down();
    assert!(!ed.buffer.get(0).unwrap().is_active);
    assert!(ed.buffer.get(2).unwrap().is_active);
    assert_eq!(ed.buffer.get(2).unwrap().buffer_cursor_position, Some(0));
    assert_eq!(ed.find_active_buffer_root_index(), Some(2));
    ed.move_cursor_up();
    assert!(ed.buffer.get(0).unwrap().is_active);
    assert!(!ed.buffer.get(2).unwrap().is_active);
    assert_eq!(ed.buffer.get(0).unwrap().buffer_cursor_position, Some(2));
    // Nothing above the first buffer.
    ed.move_cursor_up();
    assert!(ed.buffer.get(0).unwrap().is_active);
}

#[test]
fn buffer_editor_line_break_goes_to_the_end() {
    let mut ed = TextEditorState::default();
    ed.create_text_root(pos(0.0, 0.0), SortLayoutMode::RTLText, BufferId(6));
    typed(&mut ed, "beh-ar", 10.0);
    ed.insert_line_break_at_cursor();
    assert_eq!(ed.buffer.len(), 3);
    let lb = ed.buffer.get(2).unwrap();
    assert!(lb.kind.is_line_break());
    assert_eq!(lb.buffer_id, Some(BufferId(6)));
    assert_eq!(lb.layout_mode, SortLayoutMode::RTLText);
    assert_eq!(ed.buffer.get(0).unwrap().buffer_cursor_position, Some(3));
}

#[test]
fn buffer_editor_freeform_and_activation() {
    let mut ed = TextEditorState::default();
    ed.add_freeform_sort("a".to_string(), pos(100.0, 200.0), F32Bits(500.0f32.to_bits()), Some('a'));
    ed.add_freeform_sort("b".to_string(), pos(300.0, 400.0), F32Bits(600.0f32.to_bits()), Some('b'));
    assert_eq!(ed.buffer.len(), 2);
    assert!(!ed.buffer.get(0).unwrap().is_active);
    let b = ed.buffer.get(1).unwrap();
    assert!(b.is_active);
    assert_eq!(b.layout_mode, SortLayoutMode::Freeform);
    assert_eq!(b.buffer_id, None);
    assert_eq!(ed.get_active_sort().map(|(i, _)| i), Some(1));
    assert!(ed.activate_sort(0));
    assert_eq!(ed.get_active_sort().map(|(i, _)| i), Some(0));
    assert!(!ed.activate_sort(5));
    assert!(ed.get_active_sort().is_none());
    ed.activate_sort(1);
    ed.clear_active_state();
    assert!(ed.get_active_sort().is_none());
    assert_eq!(glyph_name(ed.get_sort_at_position(1).unwrap()), "b");
    assert!(ed.get_sort_at_position(2).is_none());
}

#[test]
fn buffer_editor_text_tool_click_starts_buffer_once() {
    let mut ed = TextEditorState::default();
    ed.create_text_sort_at_position(
        "beh-ar".to_string(),
        pos(300.0, 400.0),
        F32Bits(600.0f32.to_bits()),
        SortLayoutMode::RTLText,
        Some('\u{0628}'),
        BufferId(11),
    );
    // No buffer yet: the clicked glyph becomes the root of a new one.
    assert_eq!(ed.buffer.len(), 1);
    let root = ed.buffer.get(0).unwrap();
    assert_eq!(glyph_name(root), "beh-ar");
    assert!(root.is_buffer_root && root.is_active);
    assert_eq!(root.layout_mode, SortLayoutMode::RTLText);
    assert_eq!(root.root_position, pos(300.0, 400.0));
    assert_eq!(root.buffer_cursor_position, Some(1));
    ed.create_text_sort_at_position(
        "teh-ar".to_string(),
        pos(0.0, 0.0),
        F32Bits(0),
        SortLayoutMode::RTLText,
        None,
        BufferId(12),
    );
    assert_eq!(ed.buffer.len(), 2);
    assert_eq!(glyph_name(ed.buffer.get(1).unwrap()), "teh-ar");
    assert_eq!(ed.buffer.get(0).unwrap().buffer_cursor_position, Some(2));
    assert_eq!(ed.get_all_buffer_ids(), vec![BufferId(11)]);
}

#[test]
fn buffer_editor_visual_positions() {
    let mut ed = TextEditorState::default();
    ed.add_freeform_sort("x".to_string(), pos(5.0, 6.0), F32Bits(0), None);
    ed.create_text_root(pos(1000.0, 0.0), SortLayoutMode::RTLText, BufferId(1));
    typed(&mut ed, "beh-ar", 100.0);
    match ed.get_sort_visual_position(0) {
        Some(SortPlacement::Stored(p)) => assert_eq!(p, pos(5.0, 6.0)),
        _ => panic!("stored position expected"),
    }
    match ed.get_sort_visual_position(1) {
        Some(SortPlacement::Stored(p)) => assert_eq!(p, pos(1000.0, 0.0)),
        _ => panic!("stored position expected"),
    }
    match ed.get_sort_visual_position(2) {
        Some(SortPlacement::Flow(BufferFlowPlan::Backward { root_index, own_index, .. })) => {
            assert_eq!((root_index, own_index), (1, 2));
        }
        _ => panic!("flow expected"),
    }
    assert!(ed.get_sort_visual_position(3).is_none());
}

#[test]
fn buffer_editor_typing_keeps_other_buffers() {
    let mut ed = TextEditorState::default();
    ed.create_text_root(pos(0.0, 0.0), SortLayoutMode::RTLText, BufferId(1));
    ed.create_text_root(pos(0.0, 900.0), SortLayoutMode::RTLText, BufferId(2));
    ed.activate_sort(1);
    let before: Vec<String> =
        ed.get_sorts_for_buffer(BufferId(1)).iter().map(|(_, e)| glyph_name(e)).collect();
    typed(&mut ed, "beh-ar", 10.0);
    typed(&mut ed, "teh-ar", 10.0);
    let after: Vec<String> =
        ed.get_sorts_for_buffer(BufferId(1)).iter().map(|(_, e)| glyph_name(e)).collect();
    assert_eq!(before, after);
    let second: Vec<String> =
        ed.get_sorts_for_buffer(BufferId(2)).iter().map(|(_, e)| glyph_name(e)).collect();
    assert_eq!(second, vec!["alef-ar", "beh-ar", "teh-ar"]);
}

#[test]
fn buffer_editor_ids_count_up() {
    let mut counter = bezy::buffer_editor::BufferIdCounter::new();
    assert_eq!(BufferId::new(&mut counter), BufferId(1));
    assert_eq!(BufferId::new(&mut counter), BufferId(2));
    let mut ed = TextEditorState::default();
    let first = BufferId::new(&mut counter);
    ed.create_text_root(pos(0.0, 0.0), SortLayoutMode::LTRText, first);
    let second = BufferId::new(&mut counter);
    ed.create_text_root(pos(0.0, 0.0), SortLayoutMode::LTRText, second);
    assert_eq!(ed.get_all_buffer_ids(), vec![BufferId(3), BufferId(4)]);
}

#[test]
fn buffer_editor_multiline_cursor_lines() {
    let mut ed = TextEditorState::default();
    assert!(ed.multiline_cursor().is_none());
    ed.create_text_root(pos(0.0, 0.0), SortLayoutMode::RTLText, BufferId(1));
    typed(&mut ed, "beh-ar", 10.0);
    ed.insert_line_break_at_cursor();
    let m = ed.multiline_cursor().unwrap();
    assert_eq!(m.root_index, 0);
    assert_eq!(m.cursor, 3);
    assert_eq!(m.line_starts, vec![0, 2]);
    assert_eq!(m.current_line, 1);
    assert_eq!(m.offsets_len, 3);
    assert_eq!(m.line_above(), Some((0, 2)));
    assert_eq!(m.line_below(), None);
    ed.set_buffer_cursor(0, 1);
    assert_eq!(ed.buffer.get(0).unwrap().buffer_cursor_position, Some(1));
}

/// x of the sort at `p` from its flow plan, as the editor draws it.
fn flow_x(ed: &TextEditorState, p: usize) -> Option<(f32, f32)> {
    let root_of = |i: usize| {
        let r = ed.buffer.get(i).unwrap().root_position;
        (f32::from_bits(r.x.0), f32::from_bits(r.y.0))
    };
    match ed.buffer_flow_plan(p)? {
        BufferFlowPlan::Root { root_index } => Some(root_of(root_index)),
        BufferFlowPlan::Forward { root_index, advance_indices } => {
            let (x, y) = root_of(root_index);
            let mut offset = 0.0f32;
            for i in advance_indices {
                offset += advance(ed.buffer.get(i).unwrap());
            }
            Some((x + offset, y))
        }
        BufferFlowPlan::Backward { root_index, advance_indices, own_index } => {
            let (x, y) = root_of(root_index);
            let own = advance(ed.buffer.get(own_index).unwrap());
            let offset = if p == root_index + 1 {
                -own
            } else {
                let mut left = 0.0f32;
                for i in advance_indices {
                    left -= advance(ed.buffer.get(i).unwrap());
                }
                left - own
            };
            Some((x + offset, y))
        }
    }
}

#[test]
fn editor_test_sort_activation_on_creation() {
    let mut text_editor = TextEditorState::default();

    // Test 1: Freeform sort should be activated when created
    text_editor.add_freeform_sort("a".to_string(), pos(100.0, 200.0), F32Bits(500.0f32.to_bits()), Some('a'));
    assert_eq!(text_editor.buffer.len(), 1);
    if let Some(sort) = text_editor.buffer.get(0) {
        assert!(sort.is_active);
        assert_eq!(sort.kind.glyph_name(), "a");
        assert_eq!(sort.root_position, pos(100.0, 200.0));
    } else {
        panic!("Sort should exist at index 0");
    }

    // Test 2: Text sort should be activated when created
    text_editor.create_text_sort_at_position(
        "b".to_string(),
        pos(300.0, 400.0),
        F32Bits(600.0f32.to_bits()),
        SortLayoutMode::LTRText,
        Some('b'),
        BufferId(1),
    );
    assert_eq!(text_editor.buffer.len(), 2);
    if let Some(sort) = text_editor.buffer.get(0) {
        assert!(!sort.is_active);
    }
    if let Some(sort) = text_editor.buffer.get(1) {
        assert!(sort.is_active);
        assert_eq!(sort.kind.glyph_name(), "b");
        assert_eq!(sort.root_position, pos(300.0, 400.0));
    } else {
        panic!("Sort should exist at index 1");
    }

    // Test 3: Text root should be activated when created
    text_editor.create_text_root(pos(500.0, 600.0), SortLayoutMode::LTRText, BufferId(2));
    assert_eq!(text_editor.buffer.len(), 3);
    for i in 0..2 {
        if let Some(sort) = text_editor.buffer.get(i) {
            assert!(!sort.is_active);
        }
    }
    if let Some(sort) = text_editor.buffer.get(2) {
        assert!(sort.is_active);
        assert!(sort.is_buffer_root);
        assert_eq!(sort.root_position, pos(500.0, 600.0));
    } else {
        panic!("Text root should exist at index 2");
    }
}

#[test]
fn test_backspace_functionality() {
    let mut text_editor = TextEditorState::default();

    // Create a text root
    text_editor.create_text_root(pos(100.0, 200.0), SortLayoutMode::LTRText, BufferId(1));
    assert_eq!(text_editor.buffer.len(), 1);

    // Insert some characters
    let w = F32Bits(100.0f32.to_bits());
    text_editor.insert_sort_at_cursor("h".to_string(), w, Some('h'), BufferId(2));
    text_editor.insert_sort_at_cursor("e".to_string(), w, Some('e'), BufferId(2));
    text_editor.insert_sort_at_cursor("l".to_string(), w, Some('l'), BufferId(2));
    text_editor.insert_sort_at_cursor("l".to_string(), w, Some('l'), BufferId(2));
    text_editor.insert_sort_at_cursor("o".to_string(), w, Some('o'), BufferId(2));
    assert_eq!(text_editor.buffer.len(), 6);

    // Test backspace - should delete characters properly
    text_editor.delete_sort_at_cursor();
    assert_eq!(text_editor.buffer.len(), 5);
    text_editor.delete_sort_at_cursor();
    assert_eq!(text_editor.buffer.len(), 4);
    text_editor.delete_sort_at_cursor();
    assert_eq!(text_editor.buffer.len(), 3);
    text_editor.delete_sort_at_cursor();
    assert_eq!(text_editor.buffer.len(), 2);
    text_editor.delete_sort_at_cursor();
    assert_eq!(text_editor.buffer.len(), 1);

    // Delete the root - should clear the entire buffer
    text_editor.delete_sort_at_cursor();
    assert_eq!(text_editor.buffer.len(), 0);
}

#[test]
fn editor_test_text_flow_calculation() {
    let mut text_editor = TextEditorState::default();

    // Create a text root at position (100, 200)
    text_editor.create_text_root(pos(100.0, 200.0), SortLayoutMode::LTRText, BufferId(1));

    // Insert some glyphs with known advance widths
    text_editor.insert_sort_at_cursor("a".to_string(), F32Bits(100.0f32.to_bits()), Some('a'), BufferId(2));
    text_editor.insert_sort_at_cursor("b".to_string(), F32Bits(150.0f32.to_bits()), Some('b'), BufferId(2));
    text_editor.insert_sort_at_cursor("c".to_string(), F32Bits(120.0f32.to_bits()), Some('c'), BufferId(2));

    // Root (placeholder) is at index 0
    if let Some(pos) = flow_x(&text_editor, 0) {
        assert_eq!(pos, (100.0, 200.0));
    } else {
        panic!("Should have flow position for root");
    }
    // First glyph after root is at index 1
    if let Some(pos) = flow_x(&text_editor, 1) {
        assert_eq!(pos, (200.0, 200.0)); // 100 + 100
    } else {
        panic!("Should have flow position for first glyph");
    }
    // Second glyph after root is at index 2
    if let Some(pos) = flow_x(&text_editor, 2) {
        assert_eq!(pos, (350.0, 200.0)); // 100 + 100 + 150
    } else {
        panic!("Should have flow position for second glyph");
    }
    // Third glyph after root is at index 2
    if let Some(pos) = flow_x(&text_editor, 2) {
        assert_eq!(pos, (350.0, 200.0)); // 100 + 100 + 150
    } else {
        panic!("Should have flow position for third glyph");
    }
}

#[test]
fn buffer_editor_backspace_keeps_other_sorts() {
    let mut ed = TextEditorState::default();
    ed.create_text_root(pos(0.0, 0.0), SortLayoutMode::LTRText, BufferId(1));
    ed.insert_sort_at_cursor("h".to_string(), F32Bits(0), Some('h'), BufferId(9));
    ed.insert_sort_at_cursor("i".to_string(), F32Bits(0), Some('i'), BufferId(9));
    // A freeform sort after the buffer's sorts; then go back to the buffer.
    ed.buffer.insert(3, freeform("x"));
    assert!(ed.activate_sort(0));
    ed.delete_sort_at_cursor();
    let names: Vec<String> = (0..ed.buffer.len()).map(|i| glyph_name(ed.buffer.get(i).unwrap())).collect();
    assert_eq!(names, vec!["a", "h", "x"]);
    assert_eq!(ed.buffer.get(0).unwrap().buffer_cursor_position, Some(2));
    // Typing then backspace restores the sorts and the cursor.
    ed.insert_sort_at_cursor("q".to_string(), F32Bits(0), None, BufferId(9));
    assert_eq!(glyph_name(ed.buffer.get(2).unwrap()), "q");
    ed.delete_sort_at_cursor();
    let names: Vec<String> = (0..ed.buffer.len()).map(|i| glyph_name(ed.buffer.get(i).unwrap())).collect();
    assert_eq!(names, vec!["a", "h", "x"]);
    assert_eq!(ed.buffer.get(0).unwrap().buffer_cursor_position, Some(2));
    // With the cursor at the root and sorts after it, nothing goes.
    ed.move_cursor_to(0);
    ed.delete_sort_at_cursor();
    assert_eq!(ed.buffer.len(), 3);
}
