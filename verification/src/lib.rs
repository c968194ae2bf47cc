//! Document model of a Markdown workspace: outline extraction, the set of
//! open documents, the directory tree and the settings groups.

mod std_calls;
pub mod text;
pub mod outline;
pub mod documents;
pub mod tree;
pub mod settings;
