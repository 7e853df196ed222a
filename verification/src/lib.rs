//! The editing core of the Bezy font editor: the sort buffer and text
//! editor state, glyph outlines and drawing, codepoint navigation, and the
//! validation and messages around loading a font.
use vstd::prelude::*;

pub mod buffer_editor;
pub mod cameras;
pub mod cli;
pub mod commands;
pub mod debug_hud;
pub mod errors;
pub mod font_info;
pub mod glyph_drawing;
pub mod kerning;
pub mod navigation;
pub mod outline;
pub mod sort_buffer;
pub mod startup;
pub mod text_buffer;
pub mod text_editor;
pub mod ufo;
pub mod unicode;

verus! {

} // verus!
