use rs_tree::exclusion::{child_path, lies_under};
use rs_tree::listing::FsEntry;
use rs_tree::node::TreeNode;
use rs_tree::order::{name_le_exec, sort_entries};
use rs_tree::pattern::{any_match, compile_patterns};
use rs_tree::printer::{Config, TreePrinter};
use rs_tree::render::{decimal_text, digit_text, statistics};

fn file(name: &str) -> FsEntry {
    FsEntry::file(name.to_string())
}

fn dir(name: &str, entries: Vec<FsEntry>) -> FsEntry {
    FsEntry::directory(name.to_string(), Some(entries))
}

fn unreadable(name: &str) -> FsEntry {
    FsEntry::directory(name.to_string(), None)
}

fn printer(max_depth: Option<usize>, directories_only: bool, exclude: &[&str]) -> TreePrinter {
    let texts: Vec<String> = exclude.iter().map(|s| s.to_string()).collect();
    let (config, _warnings) = Config::from_args("X".to_string(), max_depth, directories_only, &texts);
    TreePrinter::new(config)
}

fn run(root: &FsEntry, max_depth: Option<usize>, directories_only: bool, exclude: &[&str]) -> Vec<String> {
    printer(max_depth, directories_only, exclude).display_tree(root)
}

fn sample() -> FsEntry {
    dir("X", vec![file("g.txt"), dir("A", vec![file("f.txt")])])
}

fn names(order: &[usize], entries: &[FsEntry]) -> Vec<String> {
    order.iter().map(|&i| entries[i].name.clone()).collect()
}

#[test]
fn new_node_has_no_children() {
    let node = TreeNode::new("a".to_string(), true);
    assert_eq!(node.name, "a");
    assert!(node.is_dir);
    assert!(node.children.is_empty());
    let leaf = TreeNode::new("b".to_string(), false);
    assert!(!leaf.is_dir);
}

#[test]
fn add_child_appends_in_order() {
    let mut node = TreeNode::new("a".to_string(), true);
    node.add_child(TreeNode::new("x".to_string(), false));
    node.add_child(TreeNode::new("y".to_string(), true));
    assert_eq!(node.children.len(), 2);
    assert_eq!(node.children[0].name, "x");
    assert_eq!(node.children[1].name, "y");
    assert!(node.children[1].is_dir);
    assert_eq!(node.name, "a");
}

#[test]
fn scenario_directory_and_file() {
    let lines = run(&sample(), None, false, &[]);
    assert_eq!(
        lines,
        vec!["X", "├── A", "│   └── f.txt", "└── g.txt", "", "1 directories, 2 files"]
    );
}

#[test]
fn scenario_excluded_directory() {
    let lines = run(&sample(), None, false, &["A"]);
    assert_eq!(lines, vec!["X", "└── g.txt", "", "0 directories, 1 files"]);
}

#[test]
fn scenario_unreadable_directory_is_a_leaf() {
    let root = dir("X", vec![unreadable("B"), file("c")]);
    let lines = run(&root, None, false, &[]);
    assert_eq!(lines, vec!["X", "├── B", "└── c", "", "1 directories, 1 files"]);
}

#[test]
fn unreadable_root_shows_root_and_totals() {
    let lines = run(&unreadable("X"), None, false, &[]);
    assert_eq!(lines, vec!["X", "", "0 directories, 0 files"]);
}

#[test]
fn empty_root() {
    let root = dir("ignored", vec![]);
    assert_eq!(run(&root, None, false, &[]), vec!["X", "", "0 directories, 0 files"]);
    assert_eq!(run(&root, None, true, &[]), vec!["X", "", "0 directories"]);
}

#[test]
fn root_label_is_the_start_path() {
    let root = dir("other", vec![file("a")]);
    let (config, _) = Config::from_args("/some/where".to_string(), None, false, &vec![]);
    let lines = TreePrinter::new(config).display_tree(&root);
    assert_eq!(lines[0], "/some/where");
}

#[test]
fn connectors_of_three_children_and_grandchildren() {
    let root = dir(
        "X",
        vec![
            dir("a", vec![file("a1"), file("a2")]),
            dir("b", vec![file("b1")]),
            dir("c", vec![file("c1"), dir("c2", vec![file("deep")])]),
        ],
    );
    let lines = run(&root, None, false, &[]);
    assert_eq!(
        lines,
        vec![
            "X",
            "├── a",
            "│   ├── a1",
            "│   └── a2",
            "├── b",
            "│   └── b1",
            "└── c",
            "    ├── c1",
            "    └── c2",
            "        └── deep",
            "",
            "4 directories, 5 files",
        ]
    );
}

#[test]
fn entries_are_interleaved_in_name_order() {
    let root = dir("X", vec![file("d"), dir("c", vec![]), file("b"), dir("a", vec![])]);
    let lines = run(&root, None, false, &[]);
    assert_eq!(
        lines,
        vec!["X", "├── a", "├── b", "├── c", "└── d", "", "2 directories, 2 files"]
    );
}

#[test]
fn order_is_by_code_point() {
    let entries = vec![file("b"), file("a"), file("B"), file("é"), file("ab"), file("Z"), file("")];
    let order = sort_entries(&entries);
    assert_eq!(names(&order, &entries), vec!["", "B", "Z", "a", "ab", "b", "é"]);
}

#[test]
fn order_keeps_equal_names_in_place() {
    let entries = vec![dir("n", vec![]), file("m"), file("n")];
    let order = sort_entries(&entries);
    assert_eq!(order, vec![1, 0, 2]);
}

#[test]
fn order_of_nothing_and_of_one() {
    assert_eq!(sort_entries(&vec![]), Vec::<usize>::new());
    assert_eq!(sort_entries(&vec![file("z")]), vec![0]);
}

#[test]
fn depth_zero_in_directories_only_mode_shows_no_entry() {
    let lines = run(&sample(), Some(0), true, &[]);
    assert_eq!(lines, vec!["X", "", "0 directories"]);
}

#[test]
fn depth_zero_keeps_the_files_of_the_root() {
    let lines = run(&sample(), Some(0), false, &[]);
    assert_eq!(lines, vec!["X", "└── g.txt", "", "0 directories, 1 files"]);
}

#[test]
fn depth_one_enters_one_level() {
    let root = dir(
        "X",
        vec![dir("A", vec![dir("B", vec![file("deep")]), file("f")]), file("g")],
    );
    let lines = run(&root, Some(1), false, &[]);
    assert_eq!(
        lines,
        vec!["X", "├── A", "│   └── f", "└── g", "", "1 directories, 2 files"]
    );
    let lines = run(&root, Some(2), false, &[]);
    assert_eq!(
        lines,
        vec!["X", "├── A", "│   ├── B", "│   │   └── deep", "│   └── f", "└── g", "", "2 directories, 3 files"]
    );
}

#[test]
fn directories_only_leaves_files_out() {
    let root = dir("X", vec![dir("A", vec![file("f"), dir("B", vec![])]), file("g")]);
    let lines = run(&root, None, true, &[]);
    assert_eq!(lines, vec!["X", "└── A", "    └── B", "", "2 directories"]);
}

#[test]
fn exclusion_takes_everything_below_with_it() {
    let root = dir(
        "X",
        vec![
            dir("keep", vec![dir("target", vec![file("deep")]), file("kept")]),
            dir("target", vec![dir("inner", vec![file("x")])]),
        ],
    );
    let lines = run(&root, None, false, &["target"]);
    assert_eq!(
        lines,
        vec!["X", "└── keep", "    └── kept", "", "1 directories, 1 files"]
    );
}

#[test]
fn excluded_entries_are_recorded_with_their_path() {
    let root = dir("X", vec![dir("a", vec![file("skip.log")]), file("skip.txt")]);
    let mut p = printer(None, false, &["skip"]);
    let _ = p.display_tree(&root);
    assert_eq!(
        p.excluded_paths,
        vec![
            vec!["a".to_string(), "skip.log".to_string()],
            vec!["skip.txt".to_string()],
        ]
    );
}

#[test]
fn directories_only_does_not_record_files() {
    let root = dir("X", vec![file("a"), dir("b", vec![])]);
    let mut p = printer(None, true, &[]);
    let _ = p.display_tree(&root);
    assert!(p.excluded_paths.is_empty());
}

#[test]
fn patterns_are_searched_anywhere_in_the_name() {
    let p = printer(None, false, &["tmp", "^a.*z$"]);
    assert!(p.should_exclude("my_tmp_file"));
    assert!(p.should_exclude("tmp"));
    assert!(p.should_exclude("abcz"));
    assert!(!p.should_exclude("abczz_"));
    assert!(!p.should_exclude("other"));
    assert!(!printer(None, false, &[]).should_exclude("anything"));
}

#[test]
fn any_match_is_false_without_patterns() {
    let compiled = compile_patterns(&vec!["\\.rs$".to_string()]);
    assert!(any_match(&compiled.patterns, "main.rs"));
    assert!(!any_match(&compiled.patterns, "main.rs.bak"));
    assert!(!any_match(&vec![], "main.rs"));
}

#[test]
fn invalid_patterns_are_dropped_with_a_warning() {
    let texts = vec!["a+".to_string(), "(".to_string(), "b".to_string(), "[".to_string()];
    let (config, warnings) = Config::from_args(".".to_string(), Some(3), true, &texts);
    assert_eq!(config.start_path, ".");
    assert_eq!(config.max_depth, Some(3));
    assert!(config.directories_only);
    assert_eq!(config.exclude_patterns.len(), 2);
    assert_eq!(config.exclude_patterns[0].as_str(), "a+");
    assert_eq!(config.exclude_patterns[1].as_str(), "b");
    assert_eq!(warnings.len(), 2);
    assert!(warnings[0].starts_with("Invalid regex pattern '(': "));
    assert!(warnings[1].starts_with("Invalid regex pattern '[': "));
    assert!(warnings[0].len() > "Invalid regex pattern '(': ".len());
}

#[test]
fn a_run_goes_on_without_the_invalid_pattern() {
    let lines = run(&sample(), None, false, &["(", "g"]);
    assert_eq!(lines, vec!["X", "└── A", "    └── f.txt", "", "1 directories, 1 files"]);
}

#[test]
fn below_a_recorded_path_is_strict() {
    let mut p = printer(None, false, &[]);
    p.excluded_paths.push(vec!["a".to_string(), "b".to_string()]);
    assert!(p.is_descendant_of_excluded(&vec!["a".to_string(), "b".to_string(), "c".to_string()]));
    assert!(!p.is_descendant_of_excluded(&vec!["a".to_string(), "b".to_string()]));
    assert!(!p.is_descendant_of_excluded(&vec!["a".to_string()]));
    assert!(!p.is_descendant_of_excluded(&vec!["a".to_string(), "bc".to_string(), "d".to_string()]));
    assert!(!p.is_descendant_of_excluded(&vec![]));
}

#[test]
fn a_directory_below_a_recorded_path_gives_no_node() {
    let mut p = printer(None, false, &[]);
    p.excluded_paths.push(vec!["a".to_string()]);
    let mut path = vec!["a".to_string(), "b".to_string()];
    let built = p.build_tree_recursive(&dir("b", vec![file("f")]), &mut path, 2);
    assert!(built.is_none());
    assert_eq!(path, vec!["a".to_string(), "b".to_string()]);
    let mut other = vec!["c".to_string()];
    let built = p.build_tree_recursive(&dir("c", vec![file("f")]), &mut other, 1);
    let node = built.unwrap();
    assert_eq!(node.name, "c");
    assert_eq!(node.children.len(), 1);
    assert_eq!(node.children[0].name, "f");
    assert!(!node.children[0].is_dir);
}

#[test]
fn a_directory_beyond_the_limit_gives_no_node() {
    let mut p = printer(Some(1), false, &[]);
    let mut path = vec!["a".to_string(), "b".to_string()];
    assert!(p.build_tree_recursive(&dir("b", vec![]), &mut path, 2).is_none());
    let mut path = vec!["a".to_string()];
    assert!(p.build_tree_recursive(&dir("a", vec![]), &mut path, 1).is_some());
}

#[test]
fn enters_follows_patterns_and_limit() {
    let p = printer(Some(1), false, &["x"]);
    assert!(p.enters("a", 0));
    assert!(p.enters("a", 1));
    assert!(!p.enters("a", 2));
    assert!(!p.enters("axe", 1));
    assert!(printer(None, false, &[]).enters("a", usize::MAX));
}

#[test]
fn paths_are_compared_by_component() {
    let base = vec!["a".to_string(), "b".to_string()];
    let child = child_path(&base, "c");
    assert_eq!(child, vec!["a".to_string(), "b".to_string(), "c".to_string()]);
    assert!(lies_under(&child, &base));
    assert!(!lies_under(&base, &child));
    assert!(!lies_under(&base, &base));
    assert!(lies_under(&base, &vec![]));
    assert!(!lies_under(&vec!["ab".to_string(), "c".to_string()], &vec!["a".to_string()]));
}

#[test]
fn display_with_an_empty_prefix_writes_nothing() {
    let mut node = TreeNode::new("r".to_string(), true);
    node.add_child(TreeNode::new("f".to_string(), false));
    let (mut files, mut dirs) = (0usize, 0usize);
    let mut out: Vec<String> = Vec::new();
    node.display("", true, &mut files, &mut dirs, true, &mut out);
    assert!(out.is_empty());
    assert_eq!((files, dirs), (0, 0));
}

#[test]
fn display_writes_and_counts() {
    let mut node = TreeNode::new("d".to_string(), true);
    node.add_child(TreeNode::new("f".to_string(), false));
    node.add_child(TreeNode::new("g".to_string(), false));
    let (mut files, mut dirs) = (0usize, 0usize);
    let mut out: Vec<String> = vec!["top".to_string()];
    node.display("│   ", false, &mut files, &mut dirs, true, &mut out);
    assert_eq!(out, vec!["top", "│   ├── d", "│   │   ├── f", "│   │   └── g"]);
    assert_eq!((files, dirs), (2, 1));
    let (mut files, mut dirs) = (0usize, 0usize);
    let mut out: Vec<String> = vec!["top".to_string()];
    node.display("    ", true, &mut files, &mut dirs, false, &mut out);
    assert_eq!(out, vec!["top", "    └── d", "        ├── f", "        └── g"]);
    assert_eq!((files, dirs), (0, 1));
}

#[test]
fn display_entry_with_an_empty_prefix_writes_the_first_level() {
    let node = TreeNode::new("f".to_string(), false);
    let (mut files, mut dirs) = (0usize, 0usize);
    let mut out: Vec<String> = Vec::new();
    node.display_entry("", false, &mut files, &mut dirs, true, &mut out);
    assert_eq!(out, vec!["├── f"]);
    assert_eq!((files, dirs), (1, 0));
}

#[test]
fn statistics_lines_are_exact() {
    assert_eq!(statistics(0, 0, false), vec!["", "0 directories, 0 files"]);
    assert_eq!(statistics(1, 1, false), vec!["", "1 directories, 1 files"]);
    assert_eq!(statistics(12, 3405, false), vec!["", "12 directories, 3405 files"]);
    assert_eq!(statistics(7, 9, true), vec!["", "7 directories"]);
    assert_eq!(statistics(100, 0, true), vec!["", "100 directories"]);
    let p = printer(None, true, &[]);
    assert_eq!(p.display_statistics(10, 2), vec!["", "10 directories"]);
    let p = printer(None, false, &[]);
    assert_eq!(p.display_statistics(10, 2), vec!["", "10 directories, 2 files"]);
}

#[test]
fn one_line_for_each_entry() {
    let root = dir(
        "X",
        vec![dir("a", vec![file("1"), dir("b", vec![file("2"), file("3")])]), file("4")],
    );
    let lines = run(&root, None, false, &[]);
    assert_eq!(lines.len(), 1 + 6 + 2);
    assert_eq!(lines[lines.len() - 1], "2 directories, 4 files");
    let lines = run(&root, None, true, &[]);
    assert_eq!(lines.len(), 1 + 2 + 2);
    assert_eq!(lines[lines.len() - 1], "2 directories");
}

#[test]
fn two_runs_give_the_same_lines() {
    let root = dir("X", vec![dir("b", vec![file("z"), file("y")]), file("a"), unreadable("c")]);
    let first = run(&root, Some(3), false, &["y"]);
    let second = run(&root, Some(3), false, &["y"]);
    assert_eq!(first, second);
    let shuffled = dir("X", vec![unreadable("c"), file("a"), dir("b", vec![file("y"), file("z")])]);
    assert_eq!(run(&shuffled, Some(3), false, &["y"]), first);
}

#[test]
fn numbers_are_written_in_decimal() {
    assert_eq!(decimal_text(0), "0");
    assert_eq!(decimal_text(9), "9");
    assert_eq!(decimal_text(10), "10");
    assert_eq!(decimal_text(1234567890), "1234567890");
    assert_eq!(decimal_text(usize::MAX), format!("{}", usize::MAX));
    assert_eq!(digit_text(0), "0");
    assert_eq!(digit_text(5), "5");
    assert_eq!(digit_text(9), "9");
}

#[test]
fn names_are_ordered_by_code_point() {
    assert!(name_le_exec("", ""));
    assert!(name_le_exec("", "a"));
    assert!(!name_le_exec("a", ""));
    assert!(name_le_exec("a", "a"));
    assert!(name_le_exec("a", "ab"));
    assert!(!name_le_exec("ab", "a"));
    assert!(name_le_exec("B", "a"));
    assert!(!name_le_exec("a", "B"));
    assert!(name_le_exec("z", "é"));
    assert!(!name_le_exec("é", "z"));
    assert!(name_le_exec("abc", "abd"));
    assert!(!name_le_exec("abd", "abc"));
}

#[test]
fn name_order_is_the_byte_order_of_strings() {
    let names = ["", "a", "A", "ab", "b", "é", "e", "日本", "z", "~", "Z", "a.txt", "a-b", "a_b", "😀"];
    for a in names.iter() {
        for b in names.iter() {
            assert_eq!(name_le_exec(a, b), a <= b);
        }
    }
}

#[test]
fn what_the_walk_does_not_enter_changes_nothing() {
    let full = dir(
        "X",
        vec![
            dir("skip", vec![file("s1"), dir("s2", vec![file("s3")])]),
            dir("a", vec![dir("deep", vec![file("d1")]), file("f")]),
            file("g"),
        ],
    );
    let pruned = dir(
        "X",
        vec![
            unreadable("skip"),
            dir("a", vec![unreadable("deep"), file("f")]),
            file("g"),
        ],
    );
    let expected = vec!["X", "├── a", "│   └── f", "└── g", "", "1 directories, 2 files"];
    assert_eq!(run(&full, Some(1), false, &["skip"]), expected);
    assert_eq!(run(&pruned, Some(1), false, &["skip"]), expected);
}

#[test]
fn a_limit_shows_directories_down_to_its_level() {
    let root = dir("X", vec![dir("a", vec![dir("b", vec![dir("c", vec![dir("d", vec![])])])])]);
    assert_eq!(run(&root, Some(0), true, &[]), vec!["X", "", "0 directories"]);
    assert_eq!(run(&root, Some(1), true, &[]), vec!["X", "└── a", "", "1 directories"]);
    assert_eq!(
        run(&root, Some(3), true, &[]),
        vec!["X", "└── a", "    └── b", "        └── c", "", "3 directories"]
    );
    assert_eq!(run(&root, None, true, &[]).len(), 1 + 4 + 2);
}
