use lmprep::collect::collect_files;
use lmprep::collect::generate_new_filename;
use lmprep::config::Config;
use lmprep::filter::Entry;
use lmprep::filter::FileFilter;
use lmprep::ignore_rules::IgnoreMatcher;

fn names(parts: &[&str]) -> Vec<String> {
    parts.iter().map(|p| p.to_string()).collect()
}

fn config_with(allowed: &[&str], blocked: &[&str], respect_gitignore: bool) -> Config {
    Config {
        allowed_extensions: names(allowed),
        delimiter: "^".to_string(),
        subfolder: "context".to_string(),
        zip: false,
        tree: false,
        ignored_directories: names(blocked),
        respect_gitignore,
    }
}

fn file(parts: &[&str]) -> Entry {
    Entry { components: names(parts), is_dir: false }
}

fn dir(parts: &[&str]) -> Entry {
    Entry { components: names(parts), is_dir: true }
}

#[test]
fn blocked_ancestor_rejects_descendants() {
    let config = config_with(&[], &["node_modules"], false);
    let filter = FileFilter::new(&config, None).unwrap();
    assert!(!filter.should_process_file(&names(&["node_modules", "pkg", "index.js"])));
    assert!(!filter.should_process_file(&names(&["a", "node_modules", "deep", "x.rs"])));
    assert!(filter.should_process_file(&names(&["a", "modules", "x.rs"])));
}

#[test]
fn blocklist_matches_ignoring_case() {
    let config = config_with(&[], &["node_modules"], false);
    let filter = FileFilter::new(&config, None).unwrap();
    assert!(!filter.should_process_file(&names(&["NODE_MODULES", "x.rs"])));
    let config_upper = config_with(&[], &["TARGET"], false);
    let filter_upper = FileFilter::new(&config_upper, None).unwrap();
    assert!(!filter_upper.should_process_file(&names(&["target", "debug", "x.rs"])));
}

#[test]
fn blocklist_applies_to_the_entry_itself() {
    let config = config_with(&[], &["build"], false);
    let filter = FileFilter::new(&config, None).unwrap();
    assert!(!filter.should_process_file(&names(&["build"])));
}

#[test]
fn extension_allowlist_gates_files() {
    let config = config_with(&["rs"], &[], false);
    let filter = FileFilter::new(&config, None).unwrap();
    assert!(filter.should_process_file(&names(&["a", "b.rs"])));
    assert!(!filter.should_process_file(&names(&["a", "b.txt"])));
    assert!(!filter.should_process_file(&names(&["a", "noext"])));
}

#[test]
fn extension_match_ignores_case() {
    let config = config_with(&["RS"], &[], false);
    let filter = FileFilter::new(&config, None).unwrap();
    assert!(filter.should_process_file(&names(&["lib.rs"])));
    let config_lower = config_with(&["md"], &[], false);
    let filter_lower = FileFilter::new(&config_lower, None).unwrap();
    assert!(filter_lower.should_process_file(&names(&["README.MD"])));
}

#[test]
fn hidden_files_have_no_extension() {
    let config = config_with(&["gitignore"], &[], false);
    let filter = FileFilter::new(&config, None).unwrap();
    assert!(!filter.should_process_file(&names(&[".gitignore"])));
    let config2 = config_with(&["txt"], &[], false);
    let filter2 = FileFilter::new(&config2, None).unwrap();
    assert!(filter2.should_process_file(&names(&[".hidden.txt"])));
}

#[test]
fn empty_allowlist_accepts_any_file() {
    let config = config_with(&[], &[], false);
    let filter = FileFilter::new(&config, None).unwrap();
    assert!(filter.should_process_file(&names(&["whatever.bin"])));
    assert!(filter.should_process_file(&names(&["noext"])));
}

#[test]
fn gitignore_excludes_matched_files() {
    let config = config_with(&[], &[], true);
    let filter = FileFilter::new(&config, Some("*.log\n".to_string())).unwrap();
    assert!(!filter.should_process_file(&names(&["a", "b.log"])));
    assert!(filter.should_process_file(&names(&["a", "b.logger"])));
}

#[test]
fn gitignore_ignored_when_disabled() {
    let config = config_with(&[], &[], false);
    let filter = FileFilter::new(&config, Some("*.log\n".to_string())).unwrap();
    assert!(filter.should_process_file(&names(&["a", "b.log"])));
}

#[test]
fn gitignore_negation_is_honoured() {
    let matcher = IgnoreMatcher::from_rules("*.log\n!keep.log\n".to_string()).unwrap();
    assert!(matcher.is_ignored("other.log", false));
    assert!(!matcher.is_ignored("keep.log", false));
}

#[test]
fn gitignore_directory_pattern_applies_to_directories() {
    let matcher = IgnoreMatcher::from_rules("build/\n".to_string()).unwrap();
    assert!(matcher.is_ignored("build", true));
    assert!(!matcher.is_ignored("build", false));
}

#[test]
fn empty_matcher_never_ignores() {
    let matcher = IgnoreMatcher::empty();
    assert!(!matcher.is_ignored("anything.log", false));
    assert!(!matcher.is_ignored("dir", true));
}

#[test]
fn flat_name_joins_components_with_delimiter() {
    assert_eq!(
        generate_new_filename(&names(&["src", "lib", "util.rs"]), "^"),
        "src^lib^util.rs"
    );
    assert_eq!(generate_new_filename(&names(&["top.txt"]), "^"), "top.txt");
    assert_eq!(generate_new_filename(&names(&["a", "b"]), "--"), "a--b");
}

#[test]
fn collect_keeps_eligible_files_in_traversal_order() {
    let config = config_with(&["rs"], &["target"], false);
    let filter = FileFilter::new(&config, None).unwrap();
    let entries = vec![
        dir(&["src"]),
        file(&["src", "main.rs"]),
        file(&["src", "notes.txt"]),
        dir(&["target"]),
        file(&["target", "out.rs"]),
        file(&["lib.rs"]),
    ];
    let out = names(&["context"]);
    let collected = collect_files(&entries, &filter, &out, "^");
    let flat: Vec<String> = collected.iter().map(|c| c.flat_name.clone()).collect();
    assert_eq!(flat, vec!["src^main.rs".to_string(), "lib.rs".to_string()]);
}

#[test]
fn collect_excludes_gitignored_files_everywhere() {
    let config = config_with(&[], &[], true);
    let filter = FileFilter::new(&config, Some("*.log\n".to_string())).unwrap();
    let entries = vec![
        dir(&["a"]),
        file(&["a", "b.log"]),
        file(&["a", "b.logger"]),
    ];
    let out = names(&["context"]);
    let collected = collect_files(&entries, &filter, &out, "^");
    let flat: Vec<String> = collected.iter().map(|c| c.flat_name.clone()).collect();
    assert_eq!(flat, vec!["a^b.logger".to_string()]);
}

#[test]
fn collect_never_returns_output_subfolder_entries() {
    let config = config_with(&[], &[], false);
    let filter = FileFilter::new(&config, None).unwrap();
    let entries = vec![
        file(&["kept.txt"]),
        dir(&["context"]),
        file(&["context", "kept.txt"]),
        file(&["context", "deep", "old.rs"]),
    ];
    let out = names(&["context"]);
    let collected = collect_files(&entries, &filter, &out, "^");
    assert_eq!(collected.len(), 1);
    assert_eq!(collected[0].flat_name, "kept.txt");
    for c in &collected {
        assert!(c.components.first().map(|s| s.as_str()) != Some("context"));
    }
}

#[test]
fn collecting_twice_gives_identical_results() {
    let config = config_with(&["rs"], &["target"], true);
    let filter = FileFilter::new(&config, Some("*.tmp\n".to_string())).unwrap();
    let entries = vec![
        dir(&["src"]),
        file(&["src", "a.rs"]),
        file(&["src", "b.tmp"]),
        file(&["c.rs"]),
    ];
    let out = names(&["context"]);
    let first = collect_files(&entries, &filter, &out, "^");
    let second = collect_files(&entries, &filter, &out, "^");
    assert_eq!(first.len(), second.len());
    for (x, y) in first.iter().zip(second.iter()) {
        assert_eq!(x.components, y.components);
        assert_eq!(x.flat_name, y.flat_name);
    }
}

#[test]
fn second_run_listing_with_artifacts_collects_the_same() {
    let config = config_with(&[], &[], false);
    let filter = FileFilter::new(&config, None).unwrap();
    let out = names(&["context"]);
    let entries = vec![dir(&["src"]), file(&["src", "a.rs"]), file(&["b.txt"])];
    let mut with_artifacts = clone_entries(&entries);
    with_artifacts.push(dir(&["context"]));
    with_artifacts.push(file(&["context", "src^a.rs"]));
    with_artifacts.push(file(&["context", "b.txt"]));
    let first = collect_files(&entries, &filter, &out, "^");
    let second = collect_files(&with_artifacts, &filter, &out, "^");
    assert_eq!(first.len(), second.len());
    for (x, y) in first.iter().zip(second.iter()) {
        assert_eq!(x.flat_name, y.flat_name);
    }
}

fn clone_entries(entries: &[Entry]) -> Vec<Entry> {
    entries
        .iter()
        .map(|e| Entry { components: e.components.clone(), is_dir: e.is_dir })
        .collect()
}

#[test]
fn split_components_divides_on_the_separator() {
    let single = lmprep::text::split_components("context", '/');
    assert_eq!(single, vec!["context".to_string()]);
    let nested = lmprep::text::split_components("out/flat", '/');
    assert_eq!(nested, vec!["out".to_string(), "flat".to_string()]);
}

#[test]
fn nested_output_subfolder_is_excluded() {
    let config = config_with(&[], &[], false);
    let filter = FileFilter::new(&config, None).unwrap();
    let out = names(&["out", "flat"]);
    let entries = vec![
        file(&["a", "c.txt"]),
        dir(&["out"]),
        file(&["out", "kept.txt"]),
        dir(&["out", "flat"]),
        file(&["out", "flat", "old.txt"]),
    ];
    let collected = collect_files(&entries, &filter, &out, "^");
    let flat: Vec<String> = collected.iter().map(|c| c.flat_name.clone()).collect();
    assert_eq!(flat, vec!["a^c.txt".to_string(), "out^kept.txt".to_string()]);
}
