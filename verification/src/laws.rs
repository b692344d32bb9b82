//! What holds of every scan, proved from the definitions that the contracts of
//! the scan functions use.

use vstd::prelude::*;
use vstd::seq_lib::{lemma_multiset_commutative, to_multiset_build};
use crate::exclusion::excluded;
use crate::report::{EntryView, ReportView, file_total};
use crate::scan::{
    child_entries, entry_of, lemma_listing_entries_below_root, lemma_listing_entries_concat,
    lemma_listing_entries_total, lemma_shallow_entries_concat, lemma_shallow_entries_total,
    listing_entries, report_of, shallow_entries, shallow_entry,
};
use crate::tree::{
    Node, Probe, child_bytes, forest_bytes, lemma_child_bytes_below_root,
    lemma_listing_bytes_below_root, lemma_listing_bytes_remove, listing_bytes, tree_bytes,
};

verus! {

/// The file bytes under those entries of the root's listing whose names are
/// excluded.
pub open spec fn excluded_bytes(children: Seq<Node>, patterns: Set<Seq<char>>) -> nat
    decreases children.len(),
{
    if children.len() == 0 {
        0
    } else {
        excluded_bytes(children.drop_last(), patterns) + if patterns.contains(children.last().name@) {
            tree_bytes(children.last())
        } else {
            0
        }
    }
}

/// The total of the root's listing and the bytes under its excluded entries
/// make up all the file bytes of the listing.
pub proof fn lemma_listing_bytes_at_root(children: Seq<Node>, patterns: Set<Seq<char>>)
    ensures
        listing_bytes(children, patterns, 0) + excluded_bytes(children, patterns) == forest_bytes(
            children,
        ),
    decreases children.len(),
{
    if children.len() > 0 {
        lemma_listing_bytes_at_root(children.drop_last(), patterns);
        let child = children.last();
        match child.probe {
            Probe::Dir(below) => {
                lemma_listing_bytes_below_root(below@, patterns, 1);
            },
            _ => {},
        }
        assert(child_bytes(child, patterns, 0) == if patterns.contains(child.name@) {
            0
        } else {
            tree_bytes(child)
        });
    }
}

/// What the recursive total is. The total of a recursive report is the sum of
/// the lengths of every file in the tree, less the files under the excluded
/// entries of the root's listing. It holds of every root but one that is
/// neither file nor directory and yet has a length.
pub proof fn law_recursive_total(root: Node, patterns: Set<Seq<char>>)
    requires
        root.probe matches Probe::Other(len) ==> len == 0,
    ensures
        root.probe matches Probe::Dir(children) ==> report_of(root, true, patterns).total_size
            == tree_bytes(root) - excluded_bytes(children@, patterns),
        !(root.probe is Dir) ==> report_of(root, true, patterns).total_size == tree_bytes(root),
{
    match root.probe {
        Probe::Dir(children) => {
            lemma_listing_entries_total(children@, patterns, 0);
            lemma_listing_bytes_at_root(children@, patterns);
        },
        _ => {},
    }
}

/// A root that is a single file. Its report, in either mode, is one entry,
/// which is no directory and has the file's name, path and length, and the
/// total is that length.
pub proof fn law_file_root(root: Node, recursive: bool, patterns: Set<Seq<char>>)
    requires
        root.probe is File,
    ensures
        report_of(root, recursive, patterns).entries == seq![
            EntryView {
                name: root.name@,
                size: root.probe->File_0 as nat,
                is_dir: false,
                path: root.path@,
            },
        ],
        report_of(root, recursive, patterns).total_size == root.probe->File_0,
        report_of(root, recursive, patterns).path == root.path@,
{
}

/// Shallow and deep agree. The total of a shallow report equals the total of
/// the recursive report of the same root, whatever is excluded.
pub proof fn law_shallow_total_is_recursive_total(root: Node, patterns: Set<Seq<char>>)
    ensures
        report_of(root, false, patterns).total_size == report_of(root, true, patterns).total_size,
{
    match root.probe {
        Probe::Dir(children) => {
            lemma_listing_entries_total(children@, patterns, 0);
            lemma_shallow_entries_total(children@, patterns);
        },
        _ => {},
    }
}

/// Exclusion reaches the root's listing only. An entry found deeper is never
/// skipped, whatever its name: it adds all the file bytes of its subtree and
/// gives the entries that it gives when nothing is excluded at all. In the
/// root's listing an entry with an excluded name adds nothing and gives no
/// entry, and any other entry is untouched by the patterns.
pub proof fn law_exclusion_scope(child: Node, patterns: Set<Seq<char>>, depth: nat)
    ensures
        depth >= 1 ==> child_bytes(child, patterns, depth) == tree_bytes(child),
        depth >= 1 ==> child_entries(child, patterns, depth) == child_entries(
            child,
            Set::empty(),
            depth,
        ),
        depth == 0 && patterns.contains(child.name@) ==> child_bytes(child, patterns, depth) == 0
            && child_entries(child, patterns, depth) == Seq::<EntryView>::empty(),
        depth == 0 && !patterns.contains(child.name@) ==> child_bytes(child, patterns, depth)
            == tree_bytes(child) && child_entries(child, patterns, depth) == child_entries(
            child,
            Set::empty(),
            depth,
        ),
{
    if depth >= 1 {
        lemma_child_bytes_below_root(child, patterns, depth);
    }
    match child.probe {
        Probe::Dir(below) => {
            lemma_listing_bytes_below_root(below@, patterns, depth + 1);
            lemma_listing_bytes_below_root(below@, Set::empty(), depth + 1);
            lemma_listing_entries_below_root(below@, patterns, depth + 1, Set::empty(), depth + 1);
        },
        _ => {},
    }
}

/// Whether two listings of the root agree but for what lies behind excluded
/// names: entry by entry the names are the same, and where the name is not
/// excluded so is the whole node.
pub open spec fn same_but_excluded(a: Seq<Node>, b: Seq<Node>, patterns: Set<Seq<char>>) -> bool {
    &&& a.len() == b.len()
    &&& forall|i: int|
        0 <= i < a.len() ==> (#[trigger] a[i]).name@ == b[i].name@ && (patterns.contains(a[i].name@)
            || a[i] == b[i])
}

/// Listings of the root that agree but for what lies behind excluded names
/// give the same entries in either mode.
pub proof fn lemma_same_but_excluded(a: Seq<Node>, b: Seq<Node>, patterns: Set<Seq<char>>)
    requires
        same_but_excluded(a, b, patterns),
    ensures
        listing_entries(a, patterns, 0) == listing_entries(b, patterns, 0),
        shallow_entries(a, patterns) == shallow_entries(b, patterns),
    decreases a.len(),
{
    if a.len() > 0 {
        assert forall|i: int| 0 <= i < a.drop_last().len() implies (#[trigger] a.drop_last()[i]).name@
            == b.drop_last()[i].name@ && (patterns.contains(a.drop_last()[i].name@)
            || a.drop_last()[i] == b.drop_last()[i]) by {
            assert(a.drop_last()[i] == a[i]);
        }
        lemma_same_but_excluded(a.drop_last(), b.drop_last(), patterns);
        let last = a.len() - 1;
        assert(a[last].name@ == b[last].name@ && (patterns.contains(a[last].name@) || a[last]
            == b[last]));
        assert(child_entries(a.last(), patterns, 0) == child_entries(b.last(), patterns, 0));
    }
}

/// What lies behind an excluded name is never looked at. Two roots whose
/// listings agree but for what lies behind excluded names have the same
/// report: a reader may leave such an entry unread.
pub proof fn law_excluded_is_never_read(
    first: Node,
    second: Node,
    recursive: bool,
    patterns: Set<Seq<char>>,
)
    requires
        first.path@ == second.path@,
        first.probe is Dir,
        second.probe is Dir,
        same_but_excluded(first.probe->Dir_0@, second.probe->Dir_0@, patterns),
    ensures
        report_of(first, recursive, patterns) == report_of(second, recursive, patterns),
{
    lemma_same_but_excluded(first.probe->Dir_0@, second.probe->Dir_0@, patterns);
}

/// A directory entry of a recursive listing is sized by the file entries that
/// the listing shows below it.
pub proof fn law_directory_entry_size(child: Node, patterns: Set<Seq<char>>, depth: nat)
    requires
        child.probe is Dir,
        !excluded(depth, child.name@, patterns, true),
    ensures
        child_entries(child, patterns, depth).len() > 0,
        child_entries(child, patterns, depth).last().is_dir,
        child_entries(child, patterns, depth).last().size == file_total(
            child_entries(child, patterns, depth).drop_last(),
        ),
{
    let below = child.probe->Dir_0@;
    lemma_listing_entries_total(below, patterns, depth + 1);
    let listed = listing_entries(below, patterns, depth + 1);
    assert(child_entries(child, patterns, depth).drop_last() =~= listed);
}

/// An unreadable directory costs nothing but itself. Taking a directory that
/// cannot be listed out of a listing leaves the total of the listing as it
/// was: the scan goes on past it and counts the rest.
pub proof fn law_unreadable_adds_nothing(
    children: Seq<Node>,
    k: int,
    patterns: Set<Seq<char>>,
    depth: nat,
)
    requires
        0 <= k < children.len(),
        children[k].probe is Unreadable,
    ensures
        listing_bytes(children, patterns, depth) == listing_bytes(
            children.remove(k),
            patterns,
            depth,
        ),
        file_total(listing_entries(children, patterns, depth)) == file_total(
            listing_entries(children.remove(k), patterns, depth),
        ),
{
    lemma_listing_bytes_remove(children, patterns, depth, k);
    lemma_listing_entries_total(children, patterns, depth);
    lemma_listing_entries_total(children.remove(k), patterns, depth);
}

/// A scan is a function of the tree. Two reports of the same root, mode and
/// patterns show the same total and the same entries, as often each: the
/// second scan of an unchanged tree tells nothing new.
pub proof fn law_rescan_agrees(
    root: Node,
    recursive: bool,
    patterns: Set<Seq<char>>,
    first: ReportView,
    second: ReportView,
)
    requires
        first == report_of(root, recursive, patterns),
        second == report_of(root, recursive, patterns),
    ensures
        first.total_size == second.total_size,
        first.entries.to_multiset() == second.entries.to_multiset(),
{
}

/// Whether two nodes are the same tree read in another order: they agree in
/// name, path and kind, files and others in length, and directories in what
/// they hold, taken as `same_listing` says.
pub open spec fn same_node(a: Node, b: Node) -> bool
    decreases a,
{
    &&& a.name@ == b.name@
    &&& a.path@ == b.path@
    &&& match a.probe {
        Probe::File(len) => b.probe == Probe::File(len),
        Probe::Dir(children) => b.probe is Dir && same_listing(children@, b.probe->Dir_0@),
        Probe::Unreadable => b.probe is Unreadable,
        Probe::Other(len) => b.probe == Probe::Other(len),
        Probe::Unresolved => b.probe is Unresolved,
    }
}

/// Whether two listings hold the same nodes, in whatever order: both are
/// empty, or the last node of the first is found somewhere in the second, and
/// the rest of the first is the same listing as the second without it.
pub open spec fn same_listing(a: Seq<Node>, b: Seq<Node>) -> bool
    decreases a,
{
    if a.len() == 0 {
        b.len() == 0
    } else {
        exists|k: int|
            0 <= k < b.len() && same_node(a.last(), #[trigger] b[k]) && same_listing(
                a.drop_last(),
                b.remove(k),
            )
    }
}

/// Every node is the same as itself.
pub proof fn lemma_same_node_reflexive(a: Node)
    ensures
        same_node(a, a),
    decreases a,
{
    match a.probe {
        Probe::Dir(children) => {
            lemma_same_listing_reflexive(children@);
        },
        _ => {},
    }
}

/// Every listing is the same as itself.
pub proof fn lemma_same_listing_reflexive(a: Seq<Node>)
    ensures
        same_listing(a, a),
    decreases a,
{
    if a.len() > 0 {
        let k = a.len() - 1;
        lemma_same_node_reflexive(a.last());
        lemma_same_listing_reflexive(a.drop_last());
        assert(a.remove(k) =~= a.drop_last());
        assert(same_node(a.last(), a[k]) && same_listing(a.drop_last(), a.remove(k)));
    }
}

/// The entries of a listing are, as a multiset, what entry `k` gives and the
/// entries of the listing without it.
proof fn lemma_listing_entries_remove(
    children: Seq<Node>,
    patterns: Set<Seq<char>>,
    depth: nat,
    k: int,
)
    requires
        0 <= k < children.len(),
    ensures
        listing_entries(children, patterns, depth).to_multiset() == listing_entries(
            children.remove(k),
            patterns,
            depth,
        ).to_multiset().add(child_entries(children[k], patterns, depth).to_multiset()),
{
    let front = children.take(k);
    let back = children.skip(k + 1);
    let it = seq![children[k]];
    assert(children =~= front + it + back);
    lemma_listing_entries_concat(front + it, back, patterns, depth);
    lemma_listing_entries_concat(front, it, patterns, depth);
    lemma_listing_entries_concat(front, back, patterns, depth);
    let one = child_entries(children[k], patterns, depth);
    assert(listing_entries(it.drop_last(), patterns, depth) =~= Seq::<EntryView>::empty());
    let f = listing_entries(front, patterns, depth);
    let b = listing_entries(back, patterns, depth);
    lemma_multiset_commutative(f + one, b);
    lemma_multiset_commutative(f, one);
    lemma_multiset_commutative(f, b);
}

/// What shallow mode shows of a listing is, as a multiset, what it shows of
/// entry `k` and of the listing without it.
proof fn lemma_shallow_entries_remove(children: Seq<Node>, patterns: Set<Seq<char>>, k: int)
    requires
        0 <= k < children.len(),
    ensures
        shallow_entries(children, patterns).to_multiset() == match shallow_entry(
            children[k],
            patterns,
        ) {
            Some(entry) => shallow_entries(children.remove(k), patterns).to_multiset().insert(
                entry,
            ),
            None => shallow_entries(children.remove(k), patterns).to_multiset(),
        },
{
    broadcast use vstd::multiset::group_multiset_axioms;

    let front = children.take(k);
    let back = children.skip(k + 1);
    let it = seq![children[k]];
    assert(children =~= front + it + back);
    lemma_shallow_entries_concat(front + it, back, patterns);
    lemma_shallow_entries_concat(front, it, patterns);
    lemma_shallow_entries_concat(front, back, patterns);
    assert(shallow_entries(it.drop_last(), patterns) =~= Seq::<EntryView>::empty());
    let f = shallow_entries(front, patterns);
    let b = shallow_entries(back, patterns);
    lemma_multiset_commutative(f, b);
    match shallow_entry(children[k], patterns) {
        Some(entry) => {
            assert(f + seq![entry] =~= f.push(entry));
            lemma_multiset_commutative(f.push(entry), b);
            to_multiset_build(f, entry);
        },
        None => {},
    }
}

/// The same node read in another order adds the same bytes and gives the
/// same entries, as often each.
pub proof fn lemma_same_node(a: Node, b: Node, patterns: Set<Seq<char>>, depth: nat)
    requires
        same_node(a, b),
    ensures
        child_bytes(a, patterns, depth) == child_bytes(b, patterns, depth),
        child_entries(a, patterns, depth).to_multiset() == child_entries(
            b,
            patterns,
            depth,
        ).to_multiset(),
        shallow_entry(a, patterns) == shallow_entry(b, patterns),
    decreases a,
{
    match a.probe {
        Probe::Dir(children) => {
            let others = b.probe->Dir_0@;
            lemma_same_listing(children@, others, patterns, depth + 1);
            lemma_same_listing(children@, others, patterns, 1);
            to_multiset_build(
                listing_entries(children@, patterns, depth + 1),
                entry_of(a, listing_bytes(children@, patterns, depth + 1), true),
            );
            to_multiset_build(
                listing_entries(others, patterns, depth + 1),
                entry_of(b, listing_bytes(others, patterns, depth + 1), true),
            );
        },
        _ => {},
    }
}

/// The same listing read in another order has the same total and gives the
/// same entries, as often each.
pub proof fn lemma_same_listing(a: Seq<Node>, b: Seq<Node>, patterns: Set<Seq<char>>, depth: nat)
    requires
        same_listing(a, b),
    ensures
        listing_bytes(a, patterns, depth) == listing_bytes(b, patterns, depth),
        listing_entries(a, patterns, depth).to_multiset() == listing_entries(
            b,
            patterns,
            depth,
        ).to_multiset(),
    decreases a,
{
    if a.len() > 0 {
        let k = choose|k: int|
            0 <= k < b.len() && same_node(a.last(), #[trigger] b[k]) && same_listing(
                a.drop_last(),
                b.remove(k),
            );
        lemma_same_node(a.last(), b[k], patterns, depth);
        lemma_same_listing(a.drop_last(), b.remove(k), patterns, depth);
        lemma_listing_bytes_remove(b, patterns, depth, k);
        lemma_listing_entries_remove(b, patterns, depth, k);
        lemma_multiset_commutative(
            listing_entries(a.drop_last(), patterns, depth),
            child_entries(a.last(), patterns, depth),
        );
    }
}

/// The same listing read in another order shows the same entries in shallow
/// mode, as often each.
pub proof fn lemma_same_listing_shallow(a: Seq<Node>, b: Seq<Node>, patterns: Set<Seq<char>>)
    requires
        same_listing(a, b),
    ensures
        shallow_entries(a, patterns).to_multiset() == shallow_entries(b, patterns).to_multiset(),
    decreases a.len(),
{
    if a.len() > 0 {
        let k = choose|k: int|
            0 <= k < b.len() && same_node(a.last(), #[trigger] b[k]) && same_listing(
                a.drop_last(),
                b.remove(k),
            );
        lemma_same_node(a.last(), b[k], patterns, 0);
        lemma_same_listing_shallow(a.drop_last(), b.remove(k), patterns);
        lemma_shallow_entries_remove(b, patterns, k);
        let rest = shallow_entries(a.drop_last(), patterns);
        match shallow_entry(a.last(), patterns) {
            Some(entry) => {
                to_multiset_build(rest, entry);
            },
            None => {},
        }
    }
}

/// The order of reading does not matter. Two scans of a tree that has not
/// changed show the same total and the same entries, as often each, also where
/// the second scan found the entries of some directories in another order than
/// the first. Only the order of the entries in the report may differ.
pub proof fn law_rescan_in_any_order(
    first: Node,
    second: Node,
    recursive: bool,
    patterns: Set<Seq<char>>,
)
    requires
        same_node(first, second),
    ensures
        report_of(first, recursive, patterns).total_size == report_of(
            second,
            recursive,
            patterns,
        ).total_size,
        report_of(first, recursive, patterns).entries.to_multiset() == report_of(
            second,
            recursive,
            patterns,
        ).entries.to_multiset(),
        report_of(first, recursive, patterns).path == report_of(second, recursive, patterns).path,
{
    match first.probe {
        Probe::Dir(children) => {
            let others = second.probe->Dir_0@;
            lemma_same_listing(children@, others, patterns, 0);
            lemma_same_listing_shallow(children@, others, patterns);
            lemma_listing_entries_total(children@, patterns, 0);
            lemma_listing_entries_total(others, patterns, 0);
            lemma_shallow_entries_total(children@, patterns);
            lemma_shallow_entries_total(others, patterns);
        },
        _ => {},
    }
}

} // verus!
