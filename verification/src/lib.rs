//! Flattens a source directory tree into a single folder of renamed files,
//! so a codebase can be handed to a language model as one flat context set.
//!
//! The library holds the selection pipeline: deciding which entries under a
//! root are eligible (gitignore-style rules, a directory blocklist, an
//! extension allowlist), generating the flattened file names, and rendering
//! the selected set as an indented tree string. Filesystem traversal and all
//! I/O live outside the library and hand it plain values.

pub mod collect;
pub mod config;
pub mod filter;
pub mod ignore_rules;
pub mod text;
pub mod tree;

pub use collect::CollectedEntry;
pub use collect::collect_files;
pub use collect::generate_new_filename;
pub use config::Config;
pub use config::default_delimiter;
pub use config::default_ignored_directories;
pub use config::default_respect_gitignore;
pub use config::default_subfolder;
pub use filter::Entry;
pub use filter::FileFilter;
pub use ignore_rules::IgnoreMatcher;
pub use tree::Node;
pub use tree::build_forest;
pub use tree::render_collected;
pub use tree::render_tree;
