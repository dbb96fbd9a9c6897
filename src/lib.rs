//! The text engine of a terminal editor: a piece table over an original and
//! an append-only store, with a caret that tracks its line and column and
//! remembers the column that vertical moves aim for.
//!
//! `text` states what lines, columns and line starts are; `nodelist` holds
//! the pieces around the current one; `buffer` is the document and its
//! editing operations; `app` is the editor state around it; `taggedtext`
//! splits highlighted text into lines or words.

pub mod app;
pub mod buffer;
pub mod cursor;
pub mod gapbuffer;
pub mod nodelist;
pub mod taggedtext;
pub mod text;
pub mod texttag;
pub mod utils;
