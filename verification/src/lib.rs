//! Lontar: the verified core of a local-first Markdown knowledge base.
pub mod text;
pub mod markdown;
pub mod frontmatter;
pub mod note;
pub mod index;
pub mod index_laws;
pub mod os_error;
pub mod path;
pub mod vault;
pub mod commands;
pub mod watcher;
pub mod search;
