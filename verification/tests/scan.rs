use yp::report::{Entry, Report, ScanError};
use yp::scan::{
    analyze_directory, checked_dir_size, dir_size, scan_dir_recursive, try_analyze_directory,
};
use yp::tree::{Node, Probe, Stat};

fn file(name: &str, path: &str, len: u64) -> Node {
    Node { name: name.to_string(), path: path.to_string(), probe: Probe::File(len) }
}

fn dir(name: &str, path: &str, children: Vec<Node>) -> Node {
    Node { name: name.to_string(), path: path.to_string(), probe: Probe::Dir(children) }
}

fn unreadable(name: &str, path: &str) -> Node {
    Node { name: name.to_string(), path: path.to_string(), probe: Probe::Unreadable }
}

fn shown(report: &Report) -> Vec<(String, u64, bool, String)> {
    let mut all: Vec<(String, u64, bool, String)> = report
        .entries
        .iter()
        .map(|e: &Entry| (e.name.clone(), e.size, e.is_dir, e.path.clone()))
        .collect();
    all.sort();
    all
}

fn row(name: &str, size: u64, is_dir: bool, path: &str) -> (String, u64, bool, String) {
    (name.to_string(), size, is_dir, path.to_string())
}

fn example_tree() -> Node {
    dir(
        "root",
        "root",
        vec![
            file("a.txt", "root/a.txt", 10),
            dir("sub", "root/sub", vec![file("b.txt", "root/sub/b.txt", 20)]),
        ],
    )
}

#[test]
fn shallow_report_of_the_example_tree() {
    let report = analyze_directory(&example_tree(), false, &[]).unwrap();
    assert_eq!(report.total_size, 30);
    assert_eq!(report.path, "root");
    assert_eq!(
        shown(&report),
        vec![row("a.txt", 10, false, "root/a.txt"), row("sub", 20, true, "root/sub")]
    );
}

#[test]
fn recursive_report_of_the_example_tree() {
    let report = analyze_directory(&example_tree(), true, &[]).unwrap();
    assert_eq!(report.total_size, 30);
    assert_eq!(report.path, "root");
    assert_eq!(
        shown(&report),
        vec![
            row("a.txt", 10, false, "root/a.txt"),
            row("b.txt", 20, false, "root/sub/b.txt"),
            row("sub", 20, true, "root/sub"),
        ]
    );
}

#[test]
fn recursive_entries_come_in_listing_order_with_a_directory_after_its_contents() {
    let report = analyze_directory(&example_tree(), true, &[]).unwrap();
    let names: Vec<&str> = report.entries.iter().map(|e| e.name.as_str()).collect();
    assert_eq!(names, vec!["a.txt", "b.txt", "sub"]);
}

#[test]
fn exclusion_applies_at_depth_zero_only() {
    let tree = dir(
        "root",
        "root",
        vec![
            dir(
                "keep",
                "root/keep",
                vec![dir("build", "root/keep/build", vec![file("x", "root/keep/build/x", 7)])],
            ),
            dir("build", "root/build", vec![file("y", "root/build/y", 100)]),
        ],
    );
    let excludes = vec!["build".to_string()];
    let deep = analyze_directory(&tree, true, &excludes).unwrap();
    assert_eq!(deep.total_size, 7);
    assert_eq!(
        shown(&deep),
        vec![
            row("build", 7, true, "root/keep/build"),
            row("keep", 7, true, "root/keep"),
            row("x", 7, false, "root/keep/build/x"),
        ]
    );
    let shallow = analyze_directory(&tree, false, &excludes).unwrap();
    assert_eq!(shallow.total_size, 7);
    assert_eq!(shown(&shallow), vec![row("keep", 7, true, "root/keep")]);
}

#[test]
fn a_file_root_gives_one_entry() {
    let root = file("notes.txt", "docs/notes.txt", 1234);
    for recursive in [false, true] {
        let report = analyze_directory(&root, recursive, &[]).unwrap();
        assert_eq!(report.total_size, 1234);
        assert_eq!(report.path, "docs/notes.txt");
        assert_eq!(shown(&report), vec![row("notes.txt", 1234, false, "docs/notes.txt")]);
    }
}

#[test]
fn a_missing_root_is_not_found() {
    let root = Node::probed("gone".to_string(), "/no/such/gone".to_string(), None, None);
    for recursive in [false, true] {
        match analyze_directory(&root, recursive, &[]) {
            Err(ScanError::NotFound(path)) => assert_eq!(path, "/no/such/gone"),
            Ok(_) => panic!("a missing root gave a report"),
        }
    }
}

#[test]
fn an_unreadable_directory_counts_as_empty() {
    let tree = dir(
        "root",
        "root",
        vec![
            dir("one", "root/one", vec![file("a", "root/one/a", 5)]),
            unreadable("locked", "root/locked"),
            dir("two", "root/two", vec![file("b", "root/two/b", 6), file("c", "root/two/c", 7)]),
        ],
    );
    let deep = analyze_directory(&tree, true, &[]).unwrap();
    assert_eq!(deep.total_size, 18);
    assert!(shown(&deep).contains(&row("locked", 0, true, "root/locked")));
    let shallow = analyze_directory(&tree, false, &[]).unwrap();
    assert_eq!(shallow.total_size, 18);
    assert_eq!(
        shown(&shallow),
        vec![
            row("locked", 0, true, "root/locked"),
            row("one", 5, true, "root/one"),
            row("two", 13, true, "root/two"),
        ]
    );
}

#[test]
fn what_is_neither_file_nor_directory_is_left_out() {
    let socket = Node {
        name: "sock".to_string(),
        path: "root/sock".to_string(),
        probe: Probe::Other(0),
    };
    let vanished = Node {
        name: "tmp".to_string(),
        path: "root/tmp".to_string(),
        probe: Probe::Unresolved,
    };
    let tree = dir("root", "root", vec![socket, file("a", "root/a", 3), vanished]);
    for recursive in [false, true] {
        let report = analyze_directory(&tree, recursive, &[]).unwrap();
        assert_eq!(report.total_size, 3);
        assert_eq!(shown(&report), vec![row("a", 3, false, "root/a")]);
    }
}

#[test]
fn two_scans_of_one_tree_agree() {
    let tree = example_tree();
    for recursive in [false, true] {
        let first = analyze_directory(&tree, recursive, &[]).unwrap();
        let second = analyze_directory(&tree, recursive, &[]).unwrap();
        assert_eq!(first.total_size, second.total_size);
        assert_eq!(shown(&first), shown(&second));
    }
}

#[test]
fn the_order_of_a_listing_changes_only_the_order_of_the_report() {
    let tree = |swap: bool| {
        let mut inner = vec![
            file("b.txt", "root/sub/b.txt", 20),
            dir("deep", "root/sub/deep", vec![file("c", "root/sub/deep/c", 1)]),
        ];
        let mut outer = vec![file("a.txt", "root/a.txt", 10), unreadable("x", "root/x")];
        if swap {
            inner.reverse();
        }
        outer.push(dir("sub", "root/sub", inner));
        if swap {
            outer.reverse();
        }
        dir("root", "root", outer)
    };
    for recursive in [false, true] {
        let first = analyze_directory(&tree(false), recursive, &[]).unwrap();
        let second = analyze_directory(&tree(true), recursive, &[]).unwrap();
        assert_eq!(first.total_size, 31);
        assert_eq!(second.total_size, 31);
        assert_eq!(shown(&first), shown(&second));
        assert_ne!(first.entries, second.entries);
    }
}

#[test]
fn what_lies_behind_an_excluded_name_does_not_matter() {
    let tree = |hidden: Node| {
        dir("root", "root", vec![file("a.txt", "root/a.txt", 10), hidden, file("z", "root/z", 1)])
    };
    let excludes = vec!["cache".to_string()];
    let full = tree(dir("cache", "root/cache", vec![file("big", "root/cache/big", 1 << 40)]));
    let unread = tree(Node::probed("cache".to_string(), "root/cache".to_string(), None, None));
    for recursive in [false, true] {
        let first = analyze_directory(&full, recursive, &excludes).unwrap();
        let second = analyze_directory(&unread, recursive, &excludes).unwrap();
        assert_eq!(first, second);
        assert_eq!(first.total_size, 11);
    }
}

#[test]
fn the_recursive_total_is_all_files_less_the_excluded() {
    let tree = dir(
        "root",
        "root",
        vec![
            file("a", "root/a", 1),
            dir(
                "keep",
                "root/keep",
                vec![file("b", "root/keep/b", 2), dir("skip", "root/keep/skip", vec![file("c", "root/keep/skip/c", 4)])],
            ),
            dir("skip", "root/skip", vec![file("d", "root/skip/d", 8)]),
            file("skip.txt", "root/skip.txt", 16),
        ],
    );
    assert_eq!(analyze_directory(&tree, true, &[]).unwrap().total_size, 31);
    let excludes = vec!["skip".to_string()];
    assert_eq!(analyze_directory(&tree, true, &excludes).unwrap().total_size, 31 - 8);
    assert_eq!(analyze_directory(&tree, false, &excludes).unwrap().total_size, 31 - 8);
    let excludes = vec!["skip".to_string(), "a".to_string(), "b".to_string()];
    assert_eq!(analyze_directory(&tree, true, &excludes).unwrap().total_size, 31 - 8 - 1);
}

#[test]
fn shallow_and_recursive_totals_agree() {
    let tree = dir(
        "root",
        "root",
        vec![
            file("a", "root/a", 1),
            dir(
                "d",
                "root/d",
                vec![
                    file("b", "root/d/b", 2),
                    dir("e", "root/d/e", vec![file("c", "root/d/e/c", 4)]),
                    unreadable("u", "root/d/u"),
                ],
            ),
            dir("empty", "root/empty", vec![]),
        ],
    );
    for excludes in [vec![], vec!["d".to_string()], vec!["e".to_string(), "a".to_string()]] {
        let shallow = analyze_directory(&tree, false, &excludes).unwrap();
        let deep = analyze_directory(&tree, true, &excludes).unwrap();
        assert_eq!(shallow.total_size, deep.total_size);
    }
    assert_eq!(analyze_directory(&tree, false, &[]).unwrap().total_size, 7);
    assert_eq!(analyze_directory(&tree, true, &["d".to_string()]).unwrap().total_size, 1);
    assert_eq!(analyze_directory(&tree, true, &["e".to_string()]).unwrap().total_size, 7);
}

#[test]
fn no_path_is_reported_twice() {
    let report = analyze_directory(&example_tree(), true, &[]).unwrap();
    let mut paths: Vec<&str> = report.entries.iter().map(|e| e.path.as_str()).collect();
    paths.sort();
    let before = paths.len();
    paths.dedup();
    assert_eq!(paths.len(), before);
    assert_eq!(paths, vec!["root/a.txt", "root/sub", "root/sub/b.txt"]);
}

#[test]
fn every_directory_entry_is_sized_by_the_files_below_it() {
    let tree = dir(
        "root",
        "root",
        vec![dir(
            "a",
            "root/a",
            vec![
                file("f", "root/a/f", 3),
                dir("b", "root/a/b", vec![file("g", "root/a/b/g", 5), file("h", "root/a/b/h", 7)]),
            ],
        )],
    );
    let report = analyze_directory(&tree, true, &[]).unwrap();
    assert_eq!(
        shown(&report),
        vec![
            row("a", 15, true, "root/a"),
            row("b", 12, true, "root/a/b"),
            row("f", 3, false, "root/a/f"),
            row("g", 5, false, "root/a/b/g"),
            row("h", 7, false, "root/a/b/h"),
        ]
    );
    assert_eq!(report.total_size, 15);
}

#[test]
fn an_empty_or_unreadable_root_gives_an_empty_report() {
    for root in [dir("root", "root", vec![]), unreadable("root", "root")] {
        for recursive in [false, true] {
            let report = analyze_directory(&root, recursive, &[]).unwrap();
            assert_eq!(report.total_size, 0);
            assert!(report.entries.is_empty());
            assert_eq!(report.path, "root");
        }
    }
}

#[test]
fn dir_size_adds_up_the_files_of_a_subtree() {
    let tree = example_tree();
    assert_eq!(dir_size(&tree, &[], 0), 30);
    assert_eq!(dir_size(&file("f", "f", 9), &[], 0), 9);
    assert_eq!(dir_size(&unreadable("d", "d"), &[], 0), 0);
    let excludes = vec!["sub".to_string()];
    assert_eq!(dir_size(&tree, &excludes, 0), 10);
    assert_eq!(dir_size(&tree, &excludes, 1), 30);
}

#[test]
fn scan_gives_the_total_and_every_node_below() {
    let (total, entries) = scan_dir_recursive(&example_tree(), &[], 0);
    assert_eq!(total, 30);
    assert_eq!(entries.len(), 3);
    let (total, entries) = scan_dir_recursive(&file("f", "f", 9), &[], 0);
    assert_eq!(total, 0);
    assert!(entries.is_empty());
}

#[test]
fn a_sum_that_does_not_fit_is_told_apart() {
    let tree = dir("root", "root", vec![file("a", "root/a", u64::MAX), file("b", "root/b", 1)]);
    assert_eq!(checked_dir_size(&tree, &[], 0), None);
    let excludes = vec!["b".to_string()];
    assert_eq!(checked_dir_size(&tree, &excludes, 0), Some(u64::MAX));
    assert_eq!(checked_dir_size(&example_tree(), &[], 0), Some(30));
}

#[test]
fn a_report_is_given_wherever_the_total_fits() {
    let tree = dir("root", "root", vec![file("a", "root/a", u64::MAX), file("b", "root/b", 1)]);
    for recursive in [false, true] {
        assert_eq!(try_analyze_directory(&tree, recursive, &[]), None);
        let excludes = vec!["a".to_string()];
        let report = try_analyze_directory(&tree, recursive, &excludes).unwrap().unwrap();
        assert_eq!(report.total_size, 1);
        assert_eq!(
            try_analyze_directory(&example_tree(), recursive, &[]),
            Some(analyze_directory(&example_tree(), recursive, &[]))
        );
        let missing = Node::probed("gone".to_string(), "gone".to_string(), None, None);
        assert_eq!(
            try_analyze_directory(&missing, recursive, &[]),
            Some(Err(ScanError::NotFound("gone".to_string())))
        );
    }
}

#[test]
fn probing_sorts_a_path_into_its_kind() {
    let stat = |is_file, is_dir, len| Some(Stat { is_file, is_dir, len });
    let node = |stat, listing| Node::probed("n".to_string(), "p/n".to_string(), stat, listing);
    assert!(matches!(node(stat(true, false, 4), None).probe, Probe::File(4)));
    assert!(matches!(node(stat(false, true, 4096), Some(vec![])).probe, Probe::Dir(_)));
    assert!(matches!(node(stat(false, true, 4096), None).probe, Probe::Unreadable));
    assert!(matches!(node(stat(false, false, 0), None).probe, Probe::Other(0)));
    assert!(matches!(node(None, None).probe, Probe::Unresolved));
}
