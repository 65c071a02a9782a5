use lmprep::config::Config;
use lmprep::config::default_delimiter;
use lmprep::config::default_ignored_directories;
use lmprep::config::default_respect_gitignore;
use lmprep::config::default_subfolder;

#[test]
fn default_values_match_the_documented_defaults() {
    assert_eq!(default_delimiter(), "^");
    assert_eq!(default_subfolder(), "context");
    assert!(default_respect_gitignore());
}

#[test]
fn default_blocklist_holds_the_common_build_and_vcs_directories() {
    let dirs = default_ignored_directories();
    let expected = vec![
        "node_modules",
        "venv",
        ".venv",
        "env",
        ".env",
        "target",
        "build",
        "dist",
        "__pycache__",
        ".git",
        ".idea",
        ".vs",
        ".vscode",
    ];
    assert_eq!(dirs, expected);
}

#[test]
fn default_config_is_unrestricted_but_respects_gitignore() {
    let config = Config::default();
    assert!(config.allowed_extensions.is_empty());
    assert_eq!(config.delimiter, "^");
    assert_eq!(config.subfolder, "context");
    assert!(!config.zip);
    assert!(!config.tree);
    assert!(config.respect_gitignore);
    assert_eq!(config.ignored_directories, default_ignored_directories());
}

#[test]
fn overrides_replace_subfolder_and_only_enable_modes() {
    let mut config = Config::default();
    config.apply_overrides(Some("ctx".to_string()), true, false);
    assert_eq!(config.subfolder, "ctx");
    assert!(config.zip);
    assert!(!config.tree);
    config.apply_overrides(None, false, true);
    assert_eq!(config.subfolder, "ctx");
    assert!(config.zip);
    assert!(config.tree);
}
