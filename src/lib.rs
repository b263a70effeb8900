//! Highlights Typst syntax trees with ANSI escape sequences, for terminals
//! and for Discord's `ansi` code blocks.
//!
//! The renderer walks a [`Node`] tree, maps each syntax [`Tag`] to a
//! [`StyleSpec`], writes through a [`DeferredWriter`] that drops style
//! changes nothing is written under, escapes raw-block fences for Discord,
//! forwards embedded code to syntect, and lowers the [`HighlightLevel`]
//! until the output fits a soft byte limit.
pub mod embedded;
pub mod error;
pub mod fence;
pub mod highlighter;
pub mod laws;
pub mod level;
pub mod style;
pub mod tags;
pub mod tree;
pub mod writer;

pub use embedded::{Fragment, Syntaxes};
pub use error::Error;
pub use highlighter::{Highlighter, SyntaxMode};
pub use level::HighlightLevel;
pub use style::{Color, StyleSpec};
pub use tags::Tag;
pub use tree::{Node, NodeKind};
pub use writer::DeferredWriter;
