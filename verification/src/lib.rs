//! Text differences for document plugins.
//!
//! Two texts are cut into tokens (characters or lines), the two token sequences
//! are compared by a shortest-edit-script search, and the resulting edit script
//! is rendered either as one string with inline markers or as two numbered line
//! lists that carry highlight spans:
//!
//! ```text
//! text --tokenize--> tokens --diff--> edit script --render_inline--> markup
//!                                                 --segment--------> payload
//! ```
//!
//! The search itself is done by the `similar` crate.  Its answer is not taken
//! on trust: the script is assembled from the tokens themselves, so whatever
//! the search says, the script that leaves [`diff`] spells out both inputs.
//!
//! The entry points [`uppercase`], [`inline_diff`] and [`inline_diff_segments`]
//! take raw byte buffers and check them to be UTF-8 first.

pub mod alignment;
pub mod engine;
pub mod inline;
pub mod script;
pub mod segments;
pub mod text;
pub mod tokens;
pub mod uppercase;

pub use alignment::{assemble, same_tokens};
pub use engine::{diff, diff_text, replacement_script};
pub use inline::{inline_diff, render_inline};
pub use script::{Change, ChangeTag, ChangeView};
pub use segments::{
    inline_diff_segments, segment, strip_terminator, DiffPayload, LineEntry, SpanEntry,
};
pub use text::{decode, encode};
pub use tokens::{tokenize, Mode};
pub use uppercase::uppercase;
