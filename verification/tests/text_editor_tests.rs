use bezy::text_editor::{
    F32Bits, FlowPlan, GridConfig, SortEntry, SortKind, SortLayoutMode, TextEditorState,
    TextModeConfig, Vec2Bits,
};

fn v(x: f32, y: f32) -> Vec2Bits {
    Vec2Bits { x: F32Bits(x.to_bits()), y: F32Bits(y.to_bits()) }
}

fn w(x: f32) -> F32Bits {
    F32Bits(x.to_bits())
}

fn f(b: F32Bits) -> f32 {
    f32::from_bits(b.0)
}

fn names(t: &TextEditorState) -> Vec<String> {
    let mut out = Vec::new();
    let mut it = t.buffer.iter();
    while let Some(s) = it.next() {
        match &s.kind {
            SortKind::Glyph { glyph_name, .. } => out.push(glyph_name.clone()),
            SortKind::LineBreak => out.push("\\n".to_string()),
        }
    }
    out
}

fn cursor_of(t: &TextEditorState, i: usize) -> Option<usize> {
    t.buffer.get(i).unwrap().buffer_cursor_position
}

/// The flow position the editor computes from a flow plan: the root
/// position, moved right by the advances summed in order from zero and
/// down one line height per line break.
fn flow_position(t: &TextEditorState, index: usize, line_height: f32) -> Option<(f32, f32)> {
    match t.text_flow_plan(index)? {
        FlowPlan::Root { root_index } => {
            let p = t.buffer.get(root_index).unwrap().root_position;
            Some((f(p.x), f(p.y)))
        }
        FlowPlan::Offset { root_index, advance_indices, line_breaks } => {
            let p = t.buffer.get(root_index).unwrap().root_position;
            let mut x = 0.0f32;
            for i in advance_indices {
                x += f(t.buffer.get(i).unwrap().kind.glyph_advance_width());
            }
            let mut y = 0.0f32;
            for _ in 0..line_breaks {
                y -= line_height;
            }
            Some((f(p.x) + x, f(p.y) + y))
        }
    }
}

#[test]
fn text_editor_test_sort_activation_on_creation() {
    let mut text_editor = TextEditorState::default();

    // Test 1: Freeform sort should be activated when created
    text_editor.add_freeform_sort("a".to_string(), v(100.0, 200.0), w(500.0));
    assert_eq!(text_editor.buffer.len(), 1);
    if let Some(sort) = text_editor.buffer.get(0) {
        assert!(sort.is_active);
        assert!(sort.is_selected);
        assert_eq!(sort.kind.glyph_name(), "a");
        assert_eq!(sort.root_position, v(100.0, 200.0));
    } else {
        panic!("Sort should exist at index 0");
    }

    // Test 2: Text sort should be activated when created
    text_editor.create_text_sort_at_position("b".to_string(), v(300.0, 400.0), w(600.0));
    assert_eq!(text_editor.buffer.len(), 2);
    if let Some(sort) = text_editor.buffer.get(0) {
        assert!(!sort.is_active);
        assert!(!sort.is_selected);
    }
    if let Some(sort) = text_editor.buffer.get(1) {
        assert!(sort.is_active);
        assert!(sort.is_selected);
        assert_eq!(sort.kind.glyph_name(), "b");
        assert_eq!(sort.root_position, v(300.0, 400.0));
    } else {
        panic!("Sort should exist at index 1");
    }

    // Test 3: Text root should be activated when created
    text_editor.create_text_root(v(500.0, 600.0));
    assert_eq!(text_editor.buffer.len(), 3);
    for i in 0..2 {
        if let Some(sort) = text_editor.buffer.get(i) {
            assert!(!sort.is_active);
        }
    }
    if let Some(sort) = text_editor.buffer.get(2) {
        assert!(sort.is_active);
        assert!(sort.is_selected);
        assert!(sort.is_buffer_root);
        assert_eq!(sort.root_position, v(500.0, 600.0));
    } else {
        panic!("Text root should exist at index 2");
    }
}

#[test]
fn text_editor_test_text_flow_calculation() {
    let mut text_editor = TextEditorState::default();
    text_editor.create_text_root(v(100.0, 200.0));
    text_editor.insert_sort_at_cursor("a".to_string(), w(100.0));
    text_editor.insert_sort_at_cursor("b".to_string(), w(150.0));
    text_editor.insert_sort_at_cursor("c".to_string(), w(120.0));

    let line_height = 1024.0f32 - (-256.0f32);
    if let Some(pos) = flow_position(&text_editor, 0, line_height) {
        assert_eq!(pos, (100.0, 200.0));
    } else {
        panic!("Should have flow position for root");
    }
    if let Some(pos) = flow_position(&text_editor, 1, line_height) {
        assert_eq!(pos, (200.0, 200.0)); // 100 + 100
    } else {
        panic!("Should have flow position for first glyph");
    }
    if let Some(pos) = flow_position(&text_editor, 2, line_height) {
        assert_eq!(pos, (350.0, 200.0)); // 100 + 100 + 150
    } else {
        panic!("Should have flow position for second glyph");
    }
    if let Some(pos) = flow_position(&text_editor, 2, line_height) {
        assert_eq!(pos, (350.0, 200.0)); // 100 + 100 + 150
    } else {
        panic!("Should have flow position for third glyph");
    }
}

#[test]
fn text_editor_defaults() {
    let t = TextEditorState::default();
    assert_eq!(t.buffer.len(), 0);
    assert_eq!(t.cursor_position, 0);
    assert_eq!(t.selection, None);
    assert_eq!(t.grid_config.sorts_per_row, 16);
    let g = GridConfig::default();
    assert_eq!(f(g.horizontal_spacing), 64.0);
    assert_eq!(f(g.vertical_spacing), 400.0);
    assert_eq!(g.grid_origin, v(0.0, 0.0));
    let m = TextModeConfig::default();
    assert_eq!(m.default_placement_mode, SortLayoutMode::Text);
    assert!(!m.show_mode_toggle);
    let e = SortEntry::default();
    assert_eq!(e.kind.glyph_name(), "");
    assert!(!e.is_buffer_root && !e.is_active && !e.is_selected);
}

#[test]
fn text_editor_typing_and_backspace() {
    let mut t = TextEditorState::default();
    t.create_text_root(v(0.0, 0.0));
    t.insert_sort_at_cursor("H".to_string(), w(600.0));
    t.insert_sort_at_cursor("i".to_string(), w(300.0));
    assert_eq!(names(&t), vec!["H", "i"]);
    assert_eq!(cursor_of(&t, 0), Some(2));
    t.move_cursor_left();
    t.insert_sort_at_cursor("e".to_string(), w(500.0));
    assert_eq!(names(&t), vec!["H", "e", "i"]);
    assert_eq!(cursor_of(&t, 0), Some(2));
    t.delete_sort_at_cursor();
    assert_eq!(names(&t), vec!["H", "i"]);
    assert_eq!(cursor_of(&t, 0), Some(1));
    t.move_cursor_to(0);
    t.delete_sort_at_cursor();
    assert_eq!(names(&t), vec!["H", "i"]);
    assert_eq!(cursor_of(&t, 0), Some(0));
}

#[test]
fn text_editor_typing_without_root_starts_one() {
    let mut t = TextEditorState::default();
    t.insert_sort_at_cursor("x".to_string(), w(400.0));
    assert_eq!(t.buffer.len(), 1);
    let root = t.buffer.get(0).unwrap();
    assert!(root.is_buffer_root && root.is_active && root.is_selected);
    assert_eq!(root.buffer_cursor_position, Some(1));
    assert_eq!(root.root_position, v(500.0, 0.0));
    assert_eq!(t.find_active_buffer_root_index(), Some(0));
}

#[test]
fn text_editor_cursor_moves_are_clamped() {
    let mut t = TextEditorState::default();
    t.create_text_root(v(0.0, 0.0));
    t.insert_sort_at_cursor("a".to_string(), w(1.0));
    t.insert_sort_at_cursor("b".to_string(), w(1.0));
    assert_eq!(t.get_buffer_sequence_length(0), 2);
    t.move_cursor_right();
    assert_eq!(cursor_of(&t, 0), Some(2));
    t.move_cursor_to(99);
    assert_eq!(cursor_of(&t, 0), Some(2));
    t.move_cursor_left();
    t.move_cursor_left();
    t.move_cursor_left();
    assert_eq!(cursor_of(&t, 0), Some(0));
    t.move_cursor_right();
    assert_eq!(cursor_of(&t, 0), Some(1));
}

#[test]
fn text_editor_line_breaks_in_flow() {
    let mut t = TextEditorState::default();
    t.create_text_root(v(10.0, 20.0));
    t.insert_sort_at_cursor("a".to_string(), w(100.0));
    t.insert_line_break_at_cursor();
    t.insert_sort_at_cursor("b".to_string(), w(50.0));
    t.insert_sort_at_cursor("c".to_string(), w(70.0));
    assert_eq!(names(&t), vec!["a", "\\n", "b", "c"]);
    assert!(t.buffer.get(1).unwrap().kind.is_line_break());
    assert_eq!(cursor_of(&t, 0), Some(4));
    let lh = 1000.0f32;
    assert_eq!(flow_position(&t, 1, lh), Some((110.0, 20.0)));
    assert_eq!(flow_position(&t, 2, lh), Some((10.0, -980.0)));
    assert_eq!(flow_position(&t, 3, lh), Some((60.0, -980.0)));
    assert_eq!(t.get_buffer_sequence_length(0), 4);
}

#[test]
fn text_editor_flow_plan_edge_cases() {
    let mut t = TextEditorState::default();
    t.add_freeform_sort("f".to_string(), v(1.0, 1.0), w(10.0));
    assert!(t.text_flow_plan(0).is_none());
    assert!(t.text_flow_plan(7).is_none());
    t.create_text_root(v(0.0, 0.0));
    match t.text_flow_plan(1) {
        Some(FlowPlan::Root { root_index }) => assert_eq!(root_index, 1),
        _ => panic!("root plan expected"),
    }
}

#[test]
fn text_editor_selection_and_activation() {
    let mut t = TextEditorState::default();
    t.add_freeform_sort("a".to_string(), v(0.0, 0.0), w(1.0));
    t.add_freeform_sort("b".to_string(), v(0.0, 0.0), w(1.0));
    t.add_freeform_sort("c".to_string(), v(0.0, 0.0), w(1.0));
    assert_eq!(t.get_active_sort().map(|(i, _)| i), Some(2));
    assert!(t.activate_sort(0));
    assert_eq!(t.get_active_sort().map(|(i, _)| i), Some(0));
    assert!(!t.activate_sort(9));
    assert_eq!(t.get_active_sort().map(|(i, _)| i), None);
    assert!(t.select_sort(0));
    assert!(t.select_sort(1));
    assert!(!t.select_sort(5));
    let sel: Vec<usize> = t.get_selected_sorts().iter().map(|(i, _)| *i).collect();
    assert_eq!(sel, vec![0, 1, 2]);
    assert!(t.deselect_sort(2));
    assert!(t.toggle_sort_selection(1));
    assert!(!t.is_sort_selected(1));
    assert!(t.is_sort_selected(0));
    assert!(!t.is_sort_selected(10));
    t.clear_selections();
    assert!(t.get_selected_sorts().is_empty());
    t.activate_sort(1);
    t.clear_active_state();
    assert!(t.get_active_sort().is_none());
    t.select_sort(0);
    t.activate_sort(0);
    t.clear_all_states();
    assert!(t.get_selected_sorts().is_empty() && t.get_active_sort().is_none());
}

#[test]
fn text_editor_sort_lists_and_conversion() {
    let mut t = TextEditorState::default();
    t.add_freeform_sort("f".to_string(), v(5.0, 5.0), w(1.0));
    t.create_text_root(v(0.0, 0.0));
    t.insert_sort_at_cursor("t".to_string(), w(1.0));
    assert_eq!(t.get_all_sorts().len(), 2);
    assert_eq!(t.get_text_sorts().iter().map(|(i, _)| *i).collect::<Vec<_>>(), vec![1]);
    assert_eq!(t.get_freeform_sorts().iter().map(|(i, _)| *i).collect::<Vec<_>>(), vec![0]);
    assert!(t.convert_sort_to_text(0, 3));
    assert_eq!(t.buffer.get(0).unwrap().layout_mode, SortLayoutMode::Text);
    assert_eq!(t.buffer.get(0).unwrap().buffer_index, Some(3));
    assert!(t.convert_sort_to_freeform(1, v(9.0, 9.0)));
    let s = t.buffer.get(1).unwrap();
    assert_eq!(s.layout_mode, SortLayoutMode::Freeform);
    assert_eq!(s.root_position, v(9.0, 9.0));
    assert_eq!(s.buffer_index, None);
    assert!(!t.convert_sort_to_freeform(2, v(0.0, 0.0)));
    assert!(!t.convert_sort_to_text(2, 0));
    assert!(t.get_sort_at_position(1).is_some());
    assert!(t.get_sort_at_position(2).is_none());
}

#[test]
fn text_editor_new_line_and_buffer_navigation() {
    let mut t = TextEditorState::default();
    t.create_text_root(v(0.0, 0.0));
    t.insert_sort_at_cursor("a".to_string(), w(1.0));
    t.insert_sort_at_cursor("b".to_string(), w(1.0));
    t.create_new_line(v(0.0, -1200.0));
    // a, line break, new empty root
    assert_eq!(names(&t), vec!["a", "b", "\\n", ""]);
    let old_root = t.buffer.get(0).unwrap();
    assert!(!old_root.is_active && !old_root.is_selected);
    let new_root = t.buffer.get(3).unwrap();
    assert!(new_root.is_buffer_root && new_root.is_active && new_root.is_selected);
    assert_eq!(new_root.buffer_cursor_position, Some(0));
    assert_eq!(t.find_active_buffer_root_index(), Some(3));
    t.move_cursor_up();
    assert_eq!(t.find_active_buffer_root_index(), Some(0));
    assert_eq!(cursor_of(&t, 0), Some(3));
    assert!(!t.buffer.get(3).unwrap().is_selected);
    t.move_cursor_down();
    assert_eq!(t.find_active_buffer_root_index(), Some(3));
    assert_eq!(cursor_of(&t, 3), Some(0));
}

#[test]
fn text_editor_multiline_cursor_lines() {
    let mut t = TextEditorState::default();
    t.create_text_root(v(0.0, 0.0));
    t.insert_sort_at_cursor("a".to_string(), w(1.0));
    t.insert_line_break_at_cursor();
    t.insert_sort_at_cursor("b".to_string(), w(1.0));
    let m = t.multiline_cursor().unwrap();
    assert_eq!(m.root_index, 0);
    assert_eq!(m.cursor, 3);
    assert_eq!(m.line_starts, vec![0, 1]);
    assert_eq!(m.current_line, 1);
    assert_eq!(m.line_above(), Some((0, 1)));
    assert_eq!(m.line_below(), None);
    t.set_buffer_cursor(0, 1);
    let m = t.multiline_cursor().unwrap();
    assert_eq!(m.current_line, 1);
    t.set_buffer_cursor(0, 0);
    let m = t.multiline_cursor().unwrap();
    assert_eq!(m.current_line, 0);
    assert_eq!(m.line_above(), None);
    assert_eq!(m.line_below().map(|r| r.0), Some(1));
    assert!(TextEditorState::default().multiline_cursor().is_none());
}

#[test]
fn text_editor_backspace_undoes_enter_and_cursor_moves() {
    let mut t = TextEditorState::default();
    t.create_text_root(v(0.0, 0.0));
    t.insert_sort_at_cursor("a".to_string(), w(1.0));
    t.insert_sort_at_cursor("b".to_string(), w(1.0));
    t.move_cursor_left();
    let before = names(&t);
    let cursor_before = cursor_of(&t, 0);
    t.insert_line_break_at_cursor();
    assert_eq!(names(&t), vec!["a", "\\n", "b"]);
    t.delete_sort_at_cursor();
    assert_eq!(names(&t), before);
    assert_eq!(cursor_of(&t, 0), cursor_before);
    t.move_cursor_right();
    t.move_cursor_left();
    assert_eq!(cursor_of(&t, 0), cursor_before);
}
