use yp::exclusion::should_exclude;
use yp::text::same_text;

fn patterns(names: &[&str]) -> Vec<String> {
    names.iter().map(|s| s.to_string()).collect()
}

#[test]
fn an_exact_name_is_excluded_at_the_root() {
    let excludes = patterns(&["target", "node_modules"]);
    assert!(should_exclude(0, "target", &excludes, true));
    assert!(should_exclude(0, "node_modules", &excludes, true));
    assert!(!should_exclude(0, "src", &excludes, true));
}

#[test]
fn nothing_is_excluded_below_the_root_when_only_the_root_counts() {
    let excludes = patterns(&["target"]);
    assert!(!should_exclude(1, "target", &excludes, true));
    assert!(!should_exclude(7, "target", &excludes, true));
    assert!(!should_exclude(usize::MAX, "target", &excludes, true));
}

#[test]
fn every_depth_counts_when_not_only_the_root_does() {
    let excludes = patterns(&["target"]);
    assert!(should_exclude(0, "target", &excludes, false));
    assert!(should_exclude(3, "target", &excludes, false));
    assert!(!should_exclude(3, "other", &excludes, false));
}

#[test]
fn a_pattern_is_no_wildcard_and_no_prefix() {
    let excludes = patterns(&["*.log", "build"]);
    assert!(!should_exclude(0, "a.log", &excludes, true));
    assert!(should_exclude(0, "*.log", &excludes, true));
    assert!(!should_exclude(0, "build2", &excludes, true));
    assert!(!should_exclude(0, "buil", &excludes, true));
    assert!(!should_exclude(0, "Build", &excludes, true));
    assert!(!should_exclude(0, "", &excludes, true));
}

#[test]
fn no_patterns_exclude_nothing() {
    assert!(!should_exclude(0, "anything", &[], true));
    assert!(!should_exclude(0, "anything", &[], false));
}

#[test]
fn texts_are_the_same_when_every_character_is() {
    assert!(same_text("", ""));
    assert!(same_text("abc", "abc"));
    assert!(same_text("目录", "目录"));
    assert!(!same_text("abc", "abd"));
    assert!(!same_text("abc", "ab"));
    assert!(!same_text("", "a"));
    assert!(!same_text("目录", "目彔"));
    assert!(!same_text("e\u{301}", "\u{e9}"));
}
