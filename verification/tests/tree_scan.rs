use file_flier::config::{Config, SortDirection, SortType, ChartType};
use file_flier::tools::{FileNode, FileSize, ListSelection, SizeMetric};
use file_flier::{
    create_dir_tree_from_path, create_file_node_from_path, list_directory_items, run,
    skips_listing, sort_file_tree, ListingPlan, ScanError, ScannedEntry,
};

fn file(name: &str, size: u64) -> FileNode {
    create_file_node_from_path(name.to_string(), size, 0)
}

fn file_at(name: &str, modified: u64) -> FileNode {
    create_file_node_from_path(name.to_string(), 1, modified)
}

fn names(nodes: &[FileNode]) -> Vec<String> {
    nodes.iter().map(|n| n.name.clone()).collect()
}

fn dir_of(children: Vec<FileNode>) -> FileNode {
    FileNode::new(FileSize::bytes_to_size_metric(0), "./d".to_string(), true, 0, children)
}

#[test]
fn size_units_follow_the_thresholds() {
    let cases: Vec<(u64, SizeMetric)> = vec![
        (0, SizeMetric::B),
        (99, SizeMetric::B),
        (100, SizeMetric::KB),
        (399_999, SizeMetric::KB),
        (400_000, SizeMetric::MB),
        (999_999_999, SizeMetric::MB),
        (1_000_000_000, SizeMetric::GB),
        (999_999_999_999, SizeMetric::GB),
        (1_000_000_000_000, SizeMetric::TB),
        (999_999_999_999_999, SizeMetric::TB),
        (1_000_000_000_000_000, SizeMetric::PB),
        (999_999_999_999_999_999, SizeMetric::PB),
        (1_000_000_000_000_000_000, SizeMetric::B),
        (u64::MAX, SizeMetric::B),
    ];
    for (bytes, unit) in cases {
        let s = FileSize::bytes_to_size_metric(bytes);
        assert_eq!(s.metric(), unit, "unit of {}", bytes);
        assert_eq!(s.size_metric_to_bytes(), bytes);
    }
}

#[test]
fn units_have_their_byte_counts() {
    assert_eq!(SizeMetric::B.bytes_per_unit(), 1);
    assert_eq!(SizeMetric::KB.bytes_per_unit(), 1_000);
    assert_eq!(SizeMetric::MB.bytes_per_unit(), 1_000_000);
    assert_eq!(SizeMetric::GB.bytes_per_unit(), 1_000_000_000);
    assert_eq!(SizeMetric::TB.bytes_per_unit(), 1_000_000_000_000);
    assert_eq!(SizeMetric::PB.bytes_per_unit(), 1_000_000_000_000_000);
}

#[test]
fn defaults() {
    let s = FileSize::default();
    assert_eq!(s.size_metric_to_bytes(), 0);
    assert_eq!(s.metric(), SizeMetric::B);
    let n = FileNode::default();
    assert_eq!(n.name, "DEFAULT_PLACEHOLDER");
    assert!(!n.is_dir);
    assert_eq!(n.modified, 0);
    assert!(n.children.is_empty());
    assert_eq!(n.state, ListSelection { offset: 0, selected: None });
    assert_eq!(ListSelection::default(), ListSelection { offset: 0, selected: None });
}

#[test]
fn file_node_has_its_size_and_no_children() {
    let n = create_file_node_from_path("./src/main.rs".to_string(), 4_321, 1_700_000_000);
    assert_eq!(n.modified, 1_700_000_000);
    assert_eq!(n.name, "./src/main.rs");
    assert_eq!(n.size.size_metric_to_bytes(), 4_321);
    assert_eq!(n.size.metric(), SizeMetric::KB);
    assert!(!n.is_dir);
    assert!(n.children.is_empty());
    assert_eq!(n.state.selected, None);
}

#[test]
fn proc_is_not_scanned() {
    assert!(skips_listing("/proc"));
    assert!(skips_listing("/proc/1/fd"));
    assert!(skips_listing("/processes"));
    assert!(!skips_listing("/home/proc"));
    assert!(!skips_listing("./"));
    let n = create_dir_tree_from_path(
        "/proc/self".to_string(),
        17,
        Some(vec![ScannedEntry::File { size: 5, node: Some(file("/proc/self/x", 5)) }]),
    )
    .unwrap();
    assert_eq!(n.size.size_metric_to_bytes(), 0);
    assert!(n.is_dir);
    assert_eq!(n.modified, 17);
    assert!(n.children.is_empty());
}

#[test]
fn unreadable_directory_is_empty() {
    let n = create_dir_tree_from_path("/root/secret".to_string(), 5, None).unwrap();
    assert_eq!(n.name, "/root/secret");
    assert_eq!(n.modified, 5);
    assert_eq!(n.size.size_metric_to_bytes(), 0);
    assert!(!n.is_dir);
    assert!(n.children.is_empty());
}

#[test]
fn directory_adds_up_what_it_holds() {
    let sub = create_dir_tree_from_path(
        "./d/sub".to_string(),
        2,
        Some(vec![ScannedEntry::File { size: 300, node: Some(file("./d/sub/a", 300)) }]),
    )
    .unwrap();
    assert!(!sub.is_dir);
    let n = create_dir_tree_from_path(
        "./d".to_string(),
        3,
        Some(vec![
            ScannedEntry::File { size: 10, node: Some(file("./d/x", 10)) },
            ScannedEntry::Unreadable,
            ScannedEntry::File { size: 7, node: None },
            ScannedEntry::Directory { node: Some(sub) },
            ScannedEntry::Directory { node: None },
        ]),
    )
    .unwrap();
    assert_eq!(n.size.size_metric_to_bytes(), 317);
    assert_eq!(n.modified, 3);
    assert_eq!(n.children[1].modified, 2);
    assert_eq!(n.size.metric(), SizeMetric::KB);
    assert!(n.is_dir);
    assert_eq!(names(&n.children), vec!["./d/x", "./d/sub"]);
    assert_eq!(n.children[1].size.size_metric_to_bytes(), 300);
}

#[test]
fn failed_directory_still_marks_the_parent() {
    let n = create_dir_tree_from_path(
        "./d".to_string(),
        3,
        Some(vec![ScannedEntry::Directory { node: None }]),
    )
    .unwrap();
    assert!(n.is_dir);
    assert_eq!(n.size.size_metric_to_bytes(), 0);
    assert!(n.children.is_empty());
}

#[test]
fn metadata_failure_ends_the_scan() {
    let r = create_dir_tree_from_path(
        "./d".to_string(),
        3,
        Some(vec![
            ScannedEntry::File { size: 1, node: Some(file("./d/a", 1)) },
            ScannedEntry::MetadataFailed { message: "first".to_string() },
            ScannedEntry::MetadataFailed { message: "second".to_string() },
        ]),
    );
    match r {
        Err(ScanError::Metadata { message }) => assert_eq!(message, "first"),
        Ok(n) => panic!("expected an error, got {:?}", n),
    }
}

#[test]
fn sort_by_size_descending_and_ascending() {
    let mut d = dir_of(vec![file("b", 5), file("a", 50), file("c", 5), file("d", 500)]);
    sort_file_tree(&mut d, &SortType::Size(SortDirection::Down));
    assert_eq!(names(&d.children), vec!["d", "a", "b", "c"]);
    sort_file_tree(&mut d, &SortType::Size(SortDirection::Up));
    assert_eq!(names(&d.children), vec!["b", "c", "a", "d"]);
}

#[test]
fn sort_keeps_entries_of_equal_size_in_order() {
    let mut d = dir_of(vec![file("z", 1), file("y", 1), file("x", 1), file("w", 0)]);
    sort_file_tree(&mut d, &SortType::Size(SortDirection::Down));
    assert_eq!(names(&d.children), vec!["z", "y", "x", "w"]);
}

#[test]
fn sort_by_name_uses_byte_order() {
    let mut d = dir_of(vec![file("b", 1), file("é", 1), file("Z", 1), file("a", 1), file("ab", 1)]);
    sort_file_tree(&mut d, &SortType::Alphabetical(SortDirection::Up));
    assert_eq!(names(&d.children), vec!["Z", "a", "ab", "b", "é"]);
    sort_file_tree(&mut d, &SortType::Alphabetical(SortDirection::Down));
    assert_eq!(names(&d.children), vec!["é", "b", "ab", "a", "Z"]);
}

#[test]
fn natural_order_leaves_the_entries() {
    let mut d = dir_of(vec![file("b", 1), file("a", 9), file("c", 3)]);
    sort_file_tree(&mut d, &SortType::Natural(SortDirection::Up));
    assert_eq!(names(&d.children), vec!["b", "a", "c"]);
    sort_file_tree(&mut d, &SortType::Natural(SortDirection::Down));
    assert_eq!(names(&d.children), vec!["b", "a", "c"]);
}

#[test]
fn sort_by_modification_time() {
    let mut d = dir_of(vec![file_at("b", 30), file_at("a", 10), file_at("c", 20), file_at("e", 10)]);
    sort_file_tree(&mut d, &SortType::Modification(SortDirection::Up));
    assert_eq!(names(&d.children), vec!["a", "e", "c", "b"]);
    sort_file_tree(&mut d, &SortType::Modification(SortDirection::Down));
    assert_eq!(names(&d.children), vec!["b", "c", "a", "e"]);
}

#[test]
fn sorting_twice_changes_nothing_more() {
    let mut d = dir_of(vec![file("q", 3), file("p", 1), file("r", 3), file("s", 2)]);
    sort_file_tree(&mut d, &SortType::Size(SortDirection::Up));
    let once = names(&d.children);
    sort_file_tree(&mut d, &SortType::Size(SortDirection::Up));
    assert_eq!(names(&d.children), once);
    assert_eq!(once, vec!["p", "s", "q", "r"]);
}

fn config(path: &str, sort_type: SortType) -> Config {
    Config { path: path.to_string(), chart_type: ChartType::Pie, sort_type }
}

#[test]
fn run_plans_a_file_or_a_directory() {
    let c = config("~/music", SortType::Size(SortDirection::Down));
    match run(&c, true) {
        ListingPlan::File { path } => assert_eq!(path, "~/music"),
        _ => panic!("expected a file plan"),
    }
    match run(&c, false) {
        ListingPlan::Directory { path, sort_type } => {
            assert_eq!(path, "/home/vovobot/music");
            assert_eq!(sort_type, SortType::Size(SortDirection::Down));
        }
        _ => panic!("expected a directory plan"),
    }
}

#[test]
fn listing_sorts_a_directory_but_not_a_file() {
    let c = config("./d", SortType::Alphabetical(SortDirection::Up));
    let plan = run(&c, false);
    let tree = list_directory_items(&plan, dir_of(vec![file("b", 1), file("a", 2)]));
    assert_eq!(names(&tree.children), vec!["a", "b"]);
    let plan = run(&c, true);
    let node = list_directory_items(&plan, file("./d", 12));
    assert_eq!(node.name, "./d");
    assert_eq!(node.size.size_metric_to_bytes(), 12);
}

#[test]
fn check() {
    let c = config("./src/test_dir/test_file", SortType::Natural(SortDirection::Up));
    let plan = run(&c, true);
    let node = list_directory_items(&plan, file("./src/test_dir/test_file", 0));
    assert_eq!(node.name, "./src/test_dir/test_file");
    assert!(!node.is_dir);
}
