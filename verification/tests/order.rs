use yp::order::{comes_first, sort_by_size};
use yp::report::Entry;

fn entry(name: &str, size: u64, path: &str) -> Entry {
    Entry { name: name.to_string(), size, is_dir: false, path: path.to_string() }
}

fn names(entries: &[Entry]) -> Vec<(u64, String)> {
    entries.iter().map(|e| (e.size, e.name.clone())).collect()
}

#[test]
fn larger_entries_come_first_and_names_break_ties() {
    let entries =
        vec![entry("b", 5, "1"), entry("z", 10, "2"), entry("a", 5, "3"), entry("a", 10, "4")];
    let sorted = sort_by_size(&entries);
    assert_eq!(
        names(&sorted),
        vec![
            (10, "a".to_string()),
            (10, "z".to_string()),
            (5, "a".to_string()),
            (5, "b".to_string())
        ]
    );
}

#[test]
fn equal_entries_keep_their_order() {
    let entries = vec![
        entry("same", 1, "first"),
        entry("big", 9, "x"),
        entry("same", 1, "second"),
        entry("same", 1, "third"),
        entry("big", 9, "y"),
    ];
    let sorted = sort_by_size(&entries);
    let paths: Vec<&str> = sorted.iter().map(|e| e.path.as_str()).collect();
    assert_eq!(paths, vec!["x", "y", "first", "second", "third"]);
}

#[test]
fn sorting_agrees_with_the_standard_stable_sort() {
    let mut entries = Vec::new();
    let mut seed: u64 = 12345;
    for i in 0..500 {
        seed = seed.wrapping_mul(6364136223846793005).wrapping_add(1442695040888963407);
        let size = (seed >> 33) % 7;
        let name = format!("n{}", (seed >> 40) % 5);
        entries.push(entry(&name, size, &i.to_string()));
    }
    let sorted = sort_by_size(&entries);
    let mut expected = entries.clone();
    expected.sort_by(|a, b| b.size.cmp(&a.size).then_with(|| a.name.cmp(&b.name)));
    assert_eq!(sorted, expected);
}

#[test]
fn short_listings_sort_too() {
    assert_eq!(sort_by_size(&vec![]), vec![]);
    let one = vec![entry("a", 1, "p")];
    assert_eq!(sort_by_size(&one), one);
    let two = vec![entry("a", 1, "p"), entry("b", 2, "q")];
    assert_eq!(names(&sort_by_size(&two)), vec![(2, "b".to_string()), (1, "a".to_string())]);
}

#[test]
fn names_are_compared_by_their_bytes() {
    let first = |a: &str, b: &str| comes_first(&entry(a, 1, ""), &entry(b, 1, ""));
    assert!(first("a", "b"));
    assert!(!first("b", "a"));
    assert!(first("a", "a"));
    assert!(first("", "a"));
    assert!(!first("a", ""));
    assert!(first("ab", "abc"));
    assert!(!first("abc", "ab"));
    assert!(first("B", "a"));
    assert!(first("z", "é"));
    assert!(first("é", "目"));
}

#[test]
fn size_decides_before_the_name() {
    let big = entry("z", 10, "");
    let small = entry("a", 9, "");
    assert!(comes_first(&big, &small));
    assert!(!comes_first(&small, &big));
}
