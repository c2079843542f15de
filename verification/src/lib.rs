//! Core logic of a plain-text notes vault: the note grammar (wiki-links,
//! tags, dates and the Markdown constructs that hide them), the editing
//! buffer, the indexes built from parsed notes, link diagnostics, the query
//! language, the message framing of the tool server and the editor's tab
//! state.
pub mod text;
pub mod date;
pub mod model;
pub mod parser;
pub mod buffer;
pub mod paths;
pub mod transport;
pub mod order;
pub mod shared;
pub mod links;
pub mod tags;
pub mod dates;
pub mod names;
pub mod diagnostics;
pub mod index;
pub mod search;
pub mod tabs;
pub mod app_state;
pub mod app;
pub mod watch;
pub mod project_panel;
pub mod vault;
pub mod json;
pub mod rpc;
pub mod git;
pub mod persist;
pub mod tools;
pub mod wikilinks;
pub mod preview;
pub mod markdown;

use vstd::prelude::*;

verus! {

} // verus!
