//! Shortcut expansion: command tokens with repetition specifiers, a store
//! of named leaf templates with positional-variable substitution, and a
//! recursive resolver for named combinations of them.

pub mod chars;
pub mod combinations;
pub mod command;
pub mod content;
pub mod error;
pub mod sequence;
pub mod store;
pub mod text;

pub use crate::combinations::Combinations;
pub use crate::command::Command;
pub use crate::command::Times;
pub use crate::content::Content;
pub use crate::content::ContentItem;
pub use crate::sequence::Sequences;
