//! Headless core of a code editor: a line-indexed text buffer with
//! position and length arithmetic, change application and inversion,
//! grouped undo/redo, a multi-region selection model, inlay-aware layout
//! and greedy word wrap, orchestrated across sessions viewing shared
//! documents.
//!
//! The core addresses buffers by characters: every position is a line
//! number and a character offset, cursor motion steps one character, and
//! display width is one column per character (a tab expands to the
//! configured tab width). Grapheme-cluster segmentation and wide-glyph
//! measurement are left to the host, which can treat the core's character
//! offsets as the exchange currency; within the core a cursor may
//! therefore land between the characters of one grapheme cluster, and a
//! double-width glyph counts one column.

pub mod history;
pub mod layout;
pub mod move_ops;
pub mod selection;
pub mod state;
pub mod text;
pub mod wrap;
