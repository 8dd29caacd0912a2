//! Styled text rows, word wrapping and scrolling text buffers for a
//! character-cell terminal, and the front ends of an interpreter built on
//! them.
//!
//! Positions inside a row are byte offsets into its UTF-8 text; callers
//! address rows by grapheme cluster. Everything that reaches the terminal is
//! handed out as a list of commands, so the buffers themselves never perform
//! any output.
//!
//! - [`text`]: byte-level reasoning about UTF-8 text.
//! - [`segment`]: grapheme clusters, word boundaries and character classes.
//! - [`chgrid`]: a row of text with its runs of style.
//! - [`facts`]: what holds of restyled runs and of text written into a row.
//! - [`wrap`]: the word wrap.
//! - [`reflow`]: rows cut out of wrapped lines.
//! - [`termbuffer`]: the buffers and the commands that they queue.
//! - [`traits`], [`keys`], [`style`], [`ui_terminal`], [`ui_web`]: the front
//!   ends.

pub mod text;
pub mod segment;
pub mod chgrid;
pub mod facts;
pub mod wrap;
pub mod reflow;
pub mod termbuffer;
pub mod traits;
pub mod keys;
pub mod style;
pub mod ui_terminal;
pub mod ui_web;
