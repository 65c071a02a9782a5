//! The resolved run configuration: immutable once built, handed by value to
//! every component of the selection pipeline.

use vstd::prelude::*;

verus! {

/// Settings that drive file selection, flattening and output.
///
/// `allowed_extensions` empty means no extension restriction. Entries of
/// `ignored_directories` are directory basenames excluded at any depth,
/// matched case-insensitively.
pub struct Config {
    pub allowed_extensions: Vec<String>,
    pub delimiter: String,
    pub subfolder: String,
    pub zip: bool,
    pub tree: bool,
    pub ignored_directories: Vec<String>,
    pub respect_gitignore: bool,
}

/// The delimiter that joins path components into a flat file name.
pub fn default_delimiter() -> (r: String)
    ensures
        r@ == "^"@,
{
    String::from_str("^")
}

/// The subfolder under the root where output is written.
pub fn default_subfolder() -> (r: String)
    ensures
        r@ == "context"@,
{
    String::from_str("context")
}

/// Whether a `.gitignore` found at the root is honoured by default.
pub fn default_respect_gitignore() -> (r: bool)
    ensures
        r == true,
{
    true
}

/// The directory basenames excluded at any depth when no configuration
/// overrides them: common build, dependency and VCS directories.
pub fn default_ignored_directories() -> (r: Vec<String>)
    ensures
        r.deep_view() =~= default_ignored_directories_spec(),
{
    let mut v: Vec<String> = Vec::new();
    v.push(String::from_str("node_modules"));
    v.push(String::from_str("venv"));
    v.push(String::from_str(".venv"));
    v.push(String::from_str("env"));
    v.push(String::from_str(".env"));
    v.push(String::from_str("target"));
    v.push(String::from_str("build"));
    v.push(String::from_str("dist"));
    v.push(String::from_str("__pycache__"));
    v.push(String::from_str(".git"));
    v.push(String::from_str(".idea"));
    v.push(String::from_str(".vs"));
    v.push(String::from_str(".vscode"));
    v
}

/// The default blocklist as a mathematical sequence of names.
pub open spec fn default_ignored_directories_spec() -> Seq<Seq<char>> {
    seq![
        "node_modules"@,
        "venv"@,
        ".venv"@,
        "env"@,
        ".env"@,
        "target"@,
        "build"@,
        "dist"@,
        "__pycache__"@,
        ".git"@,
        ".idea"@,
        ".vs"@,
        ".vscode"@,
    ]
}

impl Config {
    /// Applies command-line overrides: a subfolder replaces the configured
    /// one when given, and the zip and tree switches can only turn their
    /// modes on, never off.
    pub fn apply_overrides(&mut self, subfolder: Option<String>, zip: bool, tree: bool)
        ensures
            final(self).subfolder@ == match subfolder {
                Some(s) => s@,
                None => old(self).subfolder@,
            },
            final(self).zip == (old(self).zip || zip),
            final(self).tree == (old(self).tree || tree),
            final(self).allowed_extensions == old(self).allowed_extensions,
            final(self).delimiter == old(self).delimiter,
            final(self).ignored_directories == old(self).ignored_directories,
            final(self).respect_gitignore == old(self).respect_gitignore,
    {
        if let Some(s) = subfolder {
            self.subfolder = s;
        }
        if zip {
            self.zip = true;
        }
        if tree {
            self.tree = true;
        }
    }
}

impl Default for Config {
    /// The configuration used when no config document overrides anything.
    fn default() -> (r: Config)
        ensures
            r.allowed_extensions@.len() == 0,
            r.delimiter@ == "^"@,
            r.subfolder@ == "context"@,
            r.zip == false,
            r.tree == false,
            r.ignored_directories.deep_view() =~= default_ignored_directories_spec(),
            r.respect_gitignore == true,
    {
        Config {
            allowed_extensions: Vec::new(),
            delimiter: default_delimiter(),
            subfolder: default_subfolder(),
            zip: false,
            tree: false,
            ignored_directories: default_ignored_directories(),
            respect_gitignore: default_respect_gitignore(),
        }
    }
}

} // verus!
