use lmprep::collect::CollectedEntry;
use lmprep::collect::collect_files;
use lmprep::config::Config;
use lmprep::filter::Entry;
use lmprep::filter::FileFilter;
use lmprep::tree::build_forest;
use lmprep::tree::check_tree_paths;
use lmprep::tree::render_collected;
use lmprep::tree::render_tree;

fn names(parts: &[&str]) -> Vec<String> {
    parts.iter().map(|p| p.to_string()).collect()
}

fn collected(parts: &[&str]) -> CollectedEntry {
    CollectedEntry { components: names(parts), flat_name: parts.join("^") }
}

#[test]
fn single_file_renders_two_lines() {
    let paths = vec![collected(&["x.txt"])];
    let rendered = render_collected(&paths).unwrap();
    assert_eq!(rendered, ".\n└── x.txt\n");
    assert_eq!(rendered.lines().collect::<Vec<_>>(), vec![".", "└── x.txt"]);
}

#[test]
fn directories_come_first_then_files_lexicographically() {
    let paths = vec![
        collected(&["src", "lib", "util.rs"]),
        collected(&["src", "main.rs"]),
        collected(&["README.md"]),
    ];
    let rendered = render_collected(&paths).unwrap();
    let expected = ".\n\
                    ├── src/\n\
                    │   ├── lib/\n\
                    │   │   └── util.rs\n\
                    │   └── main.rs\n\
                    └── README.md\n";
    assert_eq!(rendered, expected);
}

#[test]
fn sibling_order_is_independent_of_input_order() {
    let forward = vec![collected(&["a.txt"]), collected(&["b.txt"])];
    let backward = vec![collected(&["b.txt"]), collected(&["a.txt"])];
    let first = render_collected(&forward).unwrap();
    let second = render_collected(&backward).unwrap();
    assert_eq!(first, second);
    assert_eq!(first, ".\n├── a.txt\n└── b.txt\n");
}

#[test]
fn gitignored_file_is_absent_from_the_tree() {
    let config = Config {
        allowed_extensions: Vec::new(),
        delimiter: "^".to_string(),
        subfolder: "context".to_string(),
        zip: false,
        tree: true,
        ignored_directories: Vec::new(),
        respect_gitignore: true,
    };
    let filter = FileFilter::new(&config, Some("*.log\n".to_string())).unwrap();
    let entries = vec![
        Entry { components: names(&["a"]), is_dir: true },
        Entry { components: names(&["a", "b.log"]), is_dir: false },
        Entry { components: names(&["a", "b.logger"]), is_dir: false },
    ];
    let out = names(&["context"]);
    let kept = collect_files(&entries, &filter, &out, "^");
    let rendered = render_collected(&kept).unwrap();
    assert!(!rendered.contains("b.log\n"));
    assert!(rendered.contains("b.logger"));
    assert_eq!(rendered, ".\n└── a/\n    └── b.logger\n");
}

#[test]
fn render_tree_of_empty_forest_is_the_root_line() {
    let forest = build_forest(&Vec::new());
    assert_eq!(render_tree(&forest), ".\n");
}

#[test]
fn duplicate_paths_collapse_to_one_leaf() {
    let paths = vec![collected(&["x.txt"]), collected(&["x.txt"])];
    let rendered = render_collected(&paths).unwrap();
    assert_eq!(rendered, ".\n└── x.txt\n");
}

#[test]
fn conflicting_paths_are_refused() {
    let paths = vec![collected(&["a"]), collected(&["a", "b.txt"])];
    assert!(!check_tree_paths(&paths));
    assert!(render_collected(&paths).is_none());
}

#[test]
fn empty_path_is_refused() {
    let paths = vec![CollectedEntry { components: Vec::new(), flat_name: String::new() }];
    assert!(!check_tree_paths(&paths));
    assert!(render_collected(&paths).is_none());
}

#[test]
fn deep_nesting_keeps_continuation_columns() {
    let paths = vec![
        collected(&["d1", "d2", "leaf.txt"]),
        collected(&["d1", "z.txt"]),
        collected(&["last.txt"]),
    ];
    let rendered = render_collected(&paths).unwrap();
    let expected = ".\n\
                    ├── d1/\n\
                    │   ├── d2/\n\
                    │   │   └── leaf.txt\n\
                    │   └── z.txt\n\
                    └── last.txt\n";
    assert_eq!(rendered, expected);
}
