//! The scan itself: the size of a subtree, the full listing of a tree, and the
//! report of a root in either mode.

use vstd::prelude::*;
use crate::exclusion::{excluded, pattern_set, should_exclude};
use crate::report::{
    Entry, EntryView, Report, ReportView, ScanError, entry_views, file_total,
    lemma_weight_total_concat, size_total, sum_sizes,
};
use crate::tree::{
    Node, Probe, child_bytes, lemma_listing_bytes_below_root, lemma_listing_bytes_step,
    listing_bytes, subtree_bytes,
};

verus! {

/// The entry that stands for `node` in a report.
pub open spec fn entry_of(node: Node, size: nat, is_dir: bool) -> EntryView {
    EntryView { name: node.name@, size, is_dir, path: node.path@ }
}

/// The entries that one entry of a listing gives rise to, when the listing lies
/// at `depth`: none if its name is excluded there; one for a file; for a
/// directory those of its own listing, one level deeper, and then the directory
/// itself, sized by the total of that listing; none for anything else.
pub open spec fn child_entries(child: Node, patterns: Set<Seq<char>>, depth: nat) -> Seq<EntryView>
    decreases child,
{
    if excluded(depth, child.name@, patterns, true) {
        Seq::empty()
    } else {
        match child.probe {
            Probe::File(len) => seq![entry_of(child, len as nat, false)],
            Probe::Dir(children) => listing_entries(children@, patterns, depth + 1).push(
                entry_of(child, listing_bytes(children@, patterns, depth + 1), true),
            ),
            Probe::Unreadable => seq![entry_of(child, 0, true)],
            _ => Seq::empty(),
        }
    }
}

/// The entries of a whole listing: those of each of its entries, in order.
pub open spec fn listing_entries(children: Seq<Node>, patterns: Set<Seq<char>>, depth: nat) -> Seq<
    EntryView,
>
    decreases children,
{
    if children.len() == 0 {
        Seq::empty()
    } else {
        listing_entries(children.drop_last(), patterns, depth) + child_entries(
            children.last(),
            patterns,
            depth,
        )
    }
}

/// The file bytes that a full scan of `node` counts: the total of its listing
/// if it is a directory that can be listed, and nothing otherwise.
pub open spec fn scan_bytes(node: Node, patterns: Set<Seq<char>>, depth: nat) -> nat {
    match node.probe {
        Probe::Dir(children) => listing_bytes(children@, patterns, depth),
        _ => 0,
    }
}

/// The entries that a full scan of `node` lists: every file and directory
/// below `node` that is not excluded, `node` itself left out.
pub open spec fn scan_entries(node: Node, patterns: Set<Seq<char>>, depth: nat) -> Seq<EntryView> {
    match node.probe {
        Probe::Dir(children) => listing_entries(children@, patterns, depth),
        _ => Seq::empty(),
    }
}

/// The entry that shallow mode shows for a direct child of the root: none if
/// its name is excluded; a file with its length; a directory, listed or not,
/// with the file bytes below it and nothing of what lies in it; none for
/// anything else.
pub open spec fn shallow_entry(child: Node, patterns: Set<Seq<char>>) -> Option<EntryView> {
    if excluded(0, child.name@, patterns, true) {
        None
    } else {
        match child.probe {
            Probe::File(len) => Some(entry_of(child, len as nat, false)),
            Probe::Dir(_) | Probe::Unreadable => Some(
                entry_of(child, subtree_bytes(child, patterns, 1), true),
            ),
            _ => None,
        }
    }
}

/// The entries that shallow mode shows for the listing of the root, in order.
pub open spec fn shallow_entries(children: Seq<Node>, patterns: Set<Seq<char>>) -> Seq<EntryView>
    decreases children.len(),
{
    if children.len() == 0 {
        Seq::empty()
    } else {
        let rest = shallow_entries(children.drop_last(), patterns);
        match shallow_entry(children.last(), patterns) {
            Some(entry) => rest.push(entry),
            None => rest,
        }
    }
}

/// The report of a root that exists. A root that is no directory is shown as
/// one entry with its length. A directory is shown by its listing: in
/// recursive mode by every node below it, the total being the sizes of the file
/// entries; in shallow mode by its direct children, the total being the sizes
/// of all entries. A directory that cannot be listed gives an empty report.
pub open spec fn report_of(root: Node, recursive: bool, patterns: Set<Seq<char>>) -> ReportView {
    match root.probe {
        Probe::Dir(children) => {
            if recursive {
                let entries = listing_entries(children@, patterns, 0);
                ReportView { total_size: file_total(entries), entries, path: root.path@ }
            } else {
                let entries = shallow_entries(children@, patterns);
                ReportView { total_size: size_total(entries), entries, path: root.path@ }
            }
        },
        Probe::File(len) | Probe::Other(len) => ReportView {
            total_size: len as nat,
            entries: seq![entry_of(root, len as nat, false)],
            path: root.path@,
        },
        _ => ReportView { total_size: 0, entries: Seq::empty(), path: root.path@ },
    }
}

/// The file entries of what one entry of a listing gives rise to add up to
/// what that entry adds to the total.
pub proof fn lemma_child_entries_total(child: Node, patterns: Set<Seq<char>>, depth: nat)
    ensures
        file_total(child_entries(child, patterns, depth)) == child_bytes(child, patterns, depth),
    decreases child,
{
    if !excluded(depth, child.name@, patterns, true) {
        match child.probe {
            Probe::File(len) => {
                let one = seq![entry_of(child, len as nat, false)];
                assert(file_total(one.drop_last()) == 0);
            },
            Probe::Dir(children) => {
                let below = listing_entries(children@, patterns, depth + 1);
                let me = entry_of(child, listing_bytes(children@, patterns, depth + 1), true);
                lemma_listing_entries_total(children@, patterns, depth + 1);
                assert(below.push(me).drop_last() =~= below);
            },
            Probe::Unreadable => {
                let one = seq![entry_of(child, 0, true)];
                assert(file_total(one.drop_last()) == 0);
            },
            _ => {},
        }
    }
}

/// The file entries of a listing add up to the total of the listing.
pub proof fn lemma_listing_entries_total(children: Seq<Node>, patterns: Set<Seq<char>>, depth: nat)
    ensures
        file_total(listing_entries(children, patterns, depth)) == listing_bytes(
            children,
            patterns,
            depth,
        ),
    decreases children,
{
    if children.len() > 0 {
        lemma_listing_entries_total(children.drop_last(), patterns, depth);
        lemma_child_entries_total(children.last(), patterns, depth);
        lemma_weight_total_concat(
            listing_entries(children.drop_last(), patterns, depth),
            child_entries(children.last(), patterns, depth),
            true,
        );
    }
}

/// What shallow mode shows for a direct child of the root is sized by what
/// that child adds to the total of the root's listing.
pub proof fn lemma_shallow_entry_size(child: Node, patterns: Set<Seq<char>>)
    ensures
        match shallow_entry(child, patterns) {
            Some(entry) => entry.size == child_bytes(child, patterns, 0),
            None => child_bytes(child, patterns, 0) == 0,
        },
{
}

/// The entries that shallow mode shows add up to the total of the root's
/// listing.
pub proof fn lemma_shallow_entries_total(children: Seq<Node>, patterns: Set<Seq<char>>)
    ensures
        size_total(shallow_entries(children, patterns)) == listing_bytes(children, patterns, 0),
    decreases children.len(),
{
    if children.len() > 0 {
        lemma_shallow_entries_total(children.drop_last(), patterns);
        lemma_shallow_entry_size(children.last(), patterns);
        let rest = shallow_entries(children.drop_last(), patterns);
        match shallow_entry(children.last(), patterns) {
            Some(entry) => {
                assert(rest.push(entry).drop_last() =~= rest);
            },
            None => {},
        }
    }
}

/// The entries of two listings joined are those of the first followed by
/// those of the second.
pub proof fn lemma_listing_entries_concat(
    front: Seq<Node>,
    back: Seq<Node>,
    patterns: Set<Seq<char>>,
    depth: nat,
)
    ensures
        listing_entries(front + back, patterns, depth) == listing_entries(front, patterns, depth)
            + listing_entries(back, patterns, depth),
    decreases back.len(),
{
    if back.len() == 0 {
        assert(listing_entries(front, patterns, depth) + Seq::<EntryView>::empty()
            =~= listing_entries(front, patterns, depth));
    } else {
        assert((front + back).drop_last() =~= front + back.drop_last());
        lemma_listing_entries_concat(front, back.drop_last(), patterns, depth);
        assert((listing_entries(front, patterns, depth) + listing_entries(
            back.drop_last(),
            patterns,
            depth,
        )) + child_entries(back.last(), patterns, depth) =~= listing_entries(
            front,
            patterns,
            depth,
        ) + (listing_entries(back.drop_last(), patterns, depth) + child_entries(
            back.last(),
            patterns,
            depth,
        )));
    }
}

/// What shallow mode shows for two listings joined is what it shows for the
/// first followed by what it shows for the second.
pub proof fn lemma_shallow_entries_concat(
    front: Seq<Node>,
    back: Seq<Node>,
    patterns: Set<Seq<char>>,
)
    ensures
        shallow_entries(front + back, patterns) == shallow_entries(front, patterns)
            + shallow_entries(back, patterns),
    decreases back.len(),
{
    if back.len() == 0 {
        assert(shallow_entries(front, patterns) + Seq::<EntryView>::empty() =~= shallow_entries(
            front,
            patterns,
        ));
    } else {
        assert((front + back).drop_last() =~= front + back.drop_last());
        lemma_shallow_entries_concat(front, back.drop_last(), patterns);
    }
}

/// The entries of the first `k + 1` entries of a listing are those of the
/// first `k` followed by those of entry `k`.
pub proof fn lemma_listing_entries_step(
    children: Seq<Node>,
    patterns: Set<Seq<char>>,
    depth: nat,
    k: int,
)
    requires
        0 <= k < children.len(),
    ensures
        listing_entries(children.take(k + 1), patterns, depth) == listing_entries(
            children.take(k),
            patterns,
            depth,
        ) + child_entries(children[k], patterns, depth),
{
    assert(children.take(k + 1).drop_last() =~= children.take(k));
}

/// Below the direct children of the scan root the entries of a listing depend
/// neither on the depth nor on the patterns.
pub proof fn lemma_listing_entries_below_root(
    children: Seq<Node>,
    patterns: Set<Seq<char>>,
    depth: nat,
    other_patterns: Set<Seq<char>>,
    other_depth: nat,
)
    requires
        depth >= 1,
        other_depth >= 1,
    ensures
        listing_entries(children, patterns, depth) == listing_entries(
            children,
            other_patterns,
            other_depth,
        ),
    decreases children,
{
    if children.len() > 0 {
        lemma_listing_entries_below_root(
            children.drop_last(),
            patterns,
            depth,
            other_patterns,
            other_depth,
        );
        let child = children.last();
        match child.probe {
            Probe::Dir(below) => {
                lemma_listing_entries_below_root(
                    below@,
                    patterns,
                    depth + 1,
                    other_patterns,
                    other_depth + 1,
                );
                lemma_listing_bytes_below_root(below@, patterns, depth + 1);
                lemma_listing_bytes_below_root(below@, other_patterns, other_depth + 1);
            },
            _ => {},
        }
        assert(child_entries(child, patterns, depth) == child_entries(
            child,
            other_patterns,
            other_depth,
        ));
    }
}

/// The depth one level further down. A depth that no longer fits stays where
/// it is: it is not 0, and exclusion asks nothing else of a depth.
fn deeper(depth: usize) -> (next: usize)
    ensures
        next >= 1,
        depth < usize::MAX ==> next == depth + 1,
{
    if depth < usize::MAX {
        depth + 1
    } else {
        depth
    }
}

/// The file bytes below `node`, with the names in `excludes` skipped among the
/// direct children of `node` if these lie at depth 0. No entry is built.
pub fn dir_size(node: &Node, excludes: &[String], depth: usize) -> (total: u64)
    requires
        subtree_bytes(*node, pattern_set(excludes@), depth as nat) <= u64::MAX,
    ensures
        total == subtree_bytes(*node, pattern_set(excludes@), depth as nat),
    decreases node,
{
    let ghost patterns = pattern_set(excludes@);
    match &node.probe {
        Probe::File(len) => *len,
        Probe::Dir(children) => {
            let next = deeper(depth);
            let mut total: u64 = 0;
            let mut i: usize = 0;
            while i < children.len()
                invariant
                    i <= children.len(),
                    next >= 1,
                    patterns == pattern_set(excludes@),
                    node.probe == Probe::Dir(*children),
                    listing_bytes(children@, patterns, depth as nat) <= u64::MAX,
                    total == listing_bytes(children@.take(i as int), patterns, depth as nat),
                decreases children.len() - i,
            {
                let child = &children[i];
                proof {
                    lemma_listing_bytes_step(children@, patterns, depth as nat, i as int);
                }
                if !should_exclude(depth, child.name.as_str(), excludes, true) {
                    match &child.probe {
                        Probe::File(len) => {
                            total += *len;
                        },
                        Probe::Dir(grandchildren) => {
                            proof {
                                lemma_listing_bytes_below_root(
                                    grandchildren@,
                                    patterns,
                                    depth as nat + 1,
                                );
                                lemma_listing_bytes_below_root(grandchildren@, patterns, next as nat);
                                assert(decreases_to!(node.probe => node.probe->Dir_0));
                            }
                            total += dir_size(child, excludes, next);
                        },
                        _ => {},
                    }
                }
                i += 1;
            }
            assert(children@.take(i as int) =~= children@);
            total
        },
        _ => 0,
    }
}

/// `dir_size` for a tree of any size: `None` where the sum does not fit in 64
/// bits, which is where `dir_size` and `analyze_directory` cannot be called.
pub fn checked_dir_size(node: &Node, excludes: &[String], depth: usize) -> (out: Option<u64>)
    ensures
        match out {
            Some(total) => total == subtree_bytes(*node, pattern_set(excludes@), depth as nat),
            None => subtree_bytes(*node, pattern_set(excludes@), depth as nat) > u64::MAX,
        },
    decreases node,
{
    let ghost patterns = pattern_set(excludes@);
    match &node.probe {
        Probe::File(len) => Some(*len),
        Probe::Dir(children) => {
            let next = deeper(depth);
            let mut total: u64 = 0;
            let mut i: usize = 0;
            while i < children.len()
                invariant
                    i <= children.len(),
                    next >= 1,
                    patterns == pattern_set(excludes@),
                    node.probe == Probe::Dir(*children),
                    total == listing_bytes(children@.take(i as int), patterns, depth as nat),
                decreases children.len() - i,
            {
                let child = &children[i];
                proof {
                    lemma_listing_bytes_step(children@, patterns, depth as nat, i as int);
                }
                if !should_exclude(depth, child.name.as_str(), excludes, true) {
                    let added: u64 = match &child.probe {
                        Probe::File(len) => *len,
                        Probe::Dir(below) => {
                            proof {
                                lemma_listing_bytes_below_root(below@, patterns, depth as nat + 1);
                                lemma_listing_bytes_below_root(below@, patterns, next as nat);
                                assert(decreases_to!(node.probe => node.probe->Dir_0));
                            }
                            match checked_dir_size(child, excludes, next) {
                                Some(size) => size,
                                None => {
                                    return None;
                                },
                            }
                        },
                        _ => 0,
                    };
                    match total.checked_add(added) {
                        Some(sum) => {
                            total = sum;
                        },
                        None => {
                            return None;
                        },
                    }
                }
                i += 1;
            }
            assert(children@.take(i as int) =~= children@);
            Some(total)
        },
        _ => Some(0),
    }
}

/// The full listing below `node`: the file bytes it holds and one entry for
/// every file and directory in it, each directory after what lies in it and
/// sized by the file bytes below it. Names in `excludes` are skipped among the
/// direct children of `node` if these lie at depth 0. A node that is not a
/// directory, or cannot be listed, gives nothing.
pub fn scan_dir_recursive(node: &Node, excludes: &[String], depth: usize) -> (found: (
    u64,
    Vec<Entry>,
))
    requires
        scan_bytes(*node, pattern_set(excludes@), depth as nat) <= u64::MAX,
    ensures
        found.0 == scan_bytes(*node, pattern_set(excludes@), depth as nat),
        entry_views(found.1@) == scan_entries(*node, pattern_set(excludes@), depth as nat),
    decreases node,
{
    let ghost patterns = pattern_set(excludes@);
    let mut total: u64 = 0;
    let mut all_entries: Vec<Entry> = Vec::new();
    match &node.probe {
        Probe::Dir(children) => {
            let next = deeper(depth);
            let mut i: usize = 0;
            while i < children.len()
                invariant
                    i <= children.len(),
                    next >= 1,
                    patterns == pattern_set(excludes@),
                    node.probe == Probe::Dir(*children),
                    listing_bytes(children@, patterns, depth as nat) <= u64::MAX,
                    total == listing_bytes(children@.take(i as int), patterns, depth as nat),
                    entry_views(all_entries@) == listing_entries(
                        children@.take(i as int),
                        patterns,
                        depth as nat,
                    ),
                decreases children.len() - i,
            {
                let child = &children[i];
                let ghost before = all_entries@;
                proof {
                    lemma_listing_bytes_step(children@, patterns, depth as nat, i as int);
                    lemma_listing_entries_step(children@, patterns, depth as nat, i as int);
                }
                if !should_exclude(depth, child.name.as_str(), excludes, true) {
                    match &child.probe {
                        Probe::File(len) => {
                            let me = Entry {
                                name: child.name.clone(),
                                size: *len,
                                is_dir: false,
                                path: child.path.clone(),
                            };
                            total += *len;
                            all_entries.push(me);
                        },
                        Probe::Dir(_) | Probe::Unreadable => {
                            proof {
                                if child.probe is Dir {
                                    let below = child.probe->Dir_0@;
                                    lemma_listing_bytes_below_root(below, patterns, depth as nat + 1);
                                    lemma_listing_bytes_below_root(below, patterns, next as nat);
                                    lemma_listing_entries_below_root(
                                        below,
                                        patterns,
                                        depth as nat + 1,
                                        patterns,
                                        next as nat,
                                    );
                                }
                                assert(decreases_to!(node.probe => node.probe->Dir_0));
                            }
                            let (sub_size, mut sub_entries) = scan_dir_recursive(
                                child,
                                excludes,
                                next,
                            );
                            let ghost below_entries = sub_entries@;
                            let me = Entry {
                                name: child.name.clone(),
                                size: sub_size,
                                is_dir: true,
                                path: child.path.clone(),
                            };
                            sub_entries.push(me);
                            total += sub_size;
                            all_entries.append(&mut sub_entries);
                            assert(entry_views(all_entries@) =~= entry_views(before) + entry_views(
                                below_entries,
                            ).push(me@));
                        },
                        _ => {},
                    }
                }
                i += 1;
            }
            assert(children@.take(i as int) =~= children@);
        },
        _ => {},
    }
    (total, all_entries)
}

/// The entries of shallow mode for the direct children of the root, in listing
/// order.
fn shallow_listing(children: &Vec<Node>, excludes: &[String]) -> (entries: Vec<Entry>)
    requires
        listing_bytes(children@, pattern_set(excludes@), 0) <= u64::MAX,
    ensures
        entry_views(entries@) == shallow_entries(children@, pattern_set(excludes@)),
{
    let ghost patterns = pattern_set(excludes@);
    let mut entries: Vec<Entry> = Vec::new();
    let mut i: usize = 0;
    while i < children.len()
        invariant
            i <= children.len(),
            patterns == pattern_set(excludes@),
            listing_bytes(children@, patterns, 0) <= u64::MAX,
            entry_views(entries@) == shallow_entries(children@.take(i as int), patterns),
        decreases children.len() - i,
    {
        let child = &children[i];
        proof {
            assert(children@.take(i + 1).drop_last() =~= children@.take(i as int));
            lemma_listing_bytes_step(children@, patterns, 0, i as int);
        }
        if !should_exclude(0, child.name.as_str(), excludes, true) {
            match &child.probe {
                Probe::File(len) => {
                    let me = Entry {
                        name: child.name.clone(),
                        size: *len,
                        is_dir: false,
                        path: child.path.clone(),
                    };
                    entries.push(me);
                },
                Probe::Dir(_) | Probe::Unreadable => {
                    let size = dir_size(child, excludes, 1);
                    let me = Entry {
                        name: child.name.clone(),
                        size,
                        is_dir: true,
                        path: child.path.clone(),
                    };
                    entries.push(me);
                },
                _ => {},
            }
        }
        i += 1;
    }
    assert(children@.take(i as int) =~= children@);
    entries
}

/// Reports on `root`. A root that does not exist is the one failure; a root
/// that is no directory is reported as a single entry; a directory is reported
/// by its listing, in full where `recursive` is set and by its direct children
/// where it is not. Names in `excludes` are skipped among the direct children
/// of the root and nowhere else.
///
/// The sizes are added up in 64 bits, so the total has to fit:
/// `try_analyze_directory` asks for nothing and tells where it does not.
pub fn analyze_directory(root: &Node, recursive: bool, excludes: &[String]) -> (out: Result<
    Report,
    ScanError,
>)
    requires
        subtree_bytes(*root, pattern_set(excludes@), 0) <= u64::MAX,
    ensures
        out is Err <==> root.probe is Unresolved,
        out matches Err(e) ==> e matches ScanError::NotFound(path) && path@ == root.path@,
        out matches Ok(report) ==> report@ == report_of(*root, recursive, pattern_set(excludes@)),
{
    let ghost patterns = pattern_set(excludes@);
    match &root.probe {
        Probe::Unresolved => Err(ScanError::NotFound(root.path.clone())),
        Probe::File(len) | Probe::Other(len) => {
            let entry = Entry {
                name: root.name.clone(),
                size: *len,
                is_dir: false,
                path: root.path.clone(),
            };
            let mut entries: Vec<Entry> = Vec::new();
            entries.push(entry);
            assert(entry_views(entries@) =~= seq![entry_of(*root, *len as nat, false)]);
            Ok(Report { total_size: *len, entries, path: root.path.clone() })
        },
        Probe::Dir(children) => {
            if recursive {
                let (_, entries) = scan_dir_recursive(root, excludes, 0);
                proof {
                    lemma_listing_entries_total(children@, patterns, 0);
                }
                let total_size = sum_sizes(&entries, true);
                Ok(Report { total_size, entries, path: root.path.clone() })
            } else {
                let entries = shallow_listing(children, excludes);
                proof {
                    lemma_shallow_entries_total(children@, patterns);
                }
                let total_size = sum_sizes(&entries, false);
                Ok(Report { total_size, entries, path: root.path.clone() })
            }
        },
        Probe::Unreadable => {
            let entries: Vec<Entry> = Vec::new();
            assert(entry_views(entries@) =~= Seq::<EntryView>::empty());
            Ok(Report { total_size: 0, entries, path: root.path.clone() })
        },
    }
}

/// `analyze_directory` for a tree of any size: `None` where the total does
/// not fit in 64 bits, and the outcome of `analyze_directory` where it does.
pub fn try_analyze_directory(root: &Node, recursive: bool, excludes: &[String]) -> (out: Option<
    Result<Report, ScanError>,
>)
    ensures
        out is None <==> subtree_bytes(*root, pattern_set(excludes@), 0) > u64::MAX,
        out matches Some(found) ==> {
            &&& found is Err <==> root.probe is Unresolved
            &&& found matches Err(e) ==> e matches ScanError::NotFound(path) && path@ == root.path@
            &&& found matches Ok(report) ==> report@ == report_of(
                *root,
                recursive,
                pattern_set(excludes@),
            )
        },
{
    match checked_dir_size(root, excludes, 0) {
        Some(_) => Some(analyze_directory(root, recursive, excludes)),
        None => None,
    }
}

} // verus!
