//! Text-editing engine: a piece table over UTF-8 bytes, documents with a
//! cursor and a selection, and the editing state of the editors that drive
//! them.

pub mod text_bytes;
pub mod piece;
pub mod piece_table;
pub mod document_v2;
pub mod document;
pub mod types;

pub mod editor_v2;
pub mod editor;
pub mod layout_v2;
pub mod layout;
