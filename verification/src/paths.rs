//! The paths that a report shows: as far as the paths of the tree are all
//! different, so are those of the report.

use vstd::prelude::*;
use vstd::seq_lib::{lemma_multiset_commutative, to_multiset_build};
use crate::report::EntryView;
use crate::scan::{child_entries, listing_entries, report_of, shallow_entries, shallow_entry};
use crate::tree::{Node, Probe};

verus! {

/// The paths of `entries`, in order.
pub open spec fn entry_paths(entries: Seq<EntryView>) -> Seq<Seq<char>> {
    entries.map_values(|entry: EntryView| entry.path)
}

/// The paths of all nodes in the subtree of `node`, `node` itself last.
pub open spec fn tree_paths(node: Node) -> Seq<Seq<char>>
    decreases node,
{
    match node.probe {
        Probe::Dir(children) => forest_paths(children@).push(node.path@),
        _ => seq![node.path@],
    }
}

/// The paths of all nodes in the subtrees of `nodes`.
pub open spec fn forest_paths(nodes: Seq<Node>) -> Seq<Seq<char>>
    decreases nodes,
{
    if nodes.len() == 0 {
        Seq::empty()
    } else {
        forest_paths(nodes.drop_last()) + tree_paths(nodes.last())
    }
}

/// The path of a node is among the paths of its subtree.
proof fn lemma_own_path(node: Node)
    ensures
        seq![node.path@].to_multiset().subset_of(tree_paths(node).to_multiset()),
{
    broadcast use vstd::multiset::group_multiset_axioms;

    match node.probe {
        Probe::Dir(children) => {
            to_multiset_build(forest_paths(children@), node.path@);
            to_multiset_build(Seq::<Seq<char>>::empty(), node.path@);
            Seq::<Seq<char>>::empty().to_multiset_ensures();
        },
        _ => {},
    }
}

/// The entries that a node gives rise to show paths of its subtree, none more
/// often than the subtree has it.
proof fn lemma_child_paths(child: Node, patterns: Set<Seq<char>>, depth: nat)
    ensures
        entry_paths(child_entries(child, patterns, depth)).to_multiset().subset_of(
            tree_paths(child).to_multiset(),
        ),
    decreases child,
{
    broadcast use vstd::multiset::group_multiset_axioms;

    let shown = entry_paths(child_entries(child, patterns, depth));
    if shown.len() == 0 {
        shown.to_multiset_ensures();
    } else {
        match child.probe {
            Probe::Dir(children) => {
                let below = listing_entries(children@, patterns, depth + 1);
                lemma_listing_paths(children@, patterns, depth + 1);
                assert(shown =~= entry_paths(below).push(child.path@));
                to_multiset_build(entry_paths(below), child.path@);
                to_multiset_build(forest_paths(children@), child.path@);
            },
            _ => {
                assert(shown =~= seq![child.path@]);
                lemma_own_path(child);
            },
        }
    }
}

/// The entries of a listing show paths of its subtrees, none more often than
/// the subtrees have it.
proof fn lemma_listing_paths(children: Seq<Node>, patterns: Set<Seq<char>>, depth: nat)
    ensures
        entry_paths(listing_entries(children, patterns, depth)).to_multiset().subset_of(
            forest_paths(children).to_multiset(),
        ),
    decreases children,
{
    broadcast use vstd::multiset::group_multiset_axioms;

    if children.len() == 0 {
        entry_paths(listing_entries(children, patterns, depth)).to_multiset_ensures();
    } else {
        let front = listing_entries(children.drop_last(), patterns, depth);
        let back = child_entries(children.last(), patterns, depth);
        lemma_listing_paths(children.drop_last(), patterns, depth);
        lemma_child_paths(children.last(), patterns, depth);
        assert(entry_paths(front + back) =~= entry_paths(front) + entry_paths(back));
        lemma_multiset_commutative(entry_paths(front), entry_paths(back));
        lemma_multiset_commutative(
            forest_paths(children.drop_last()),
            tree_paths(children.last()),
        );
    }
}

/// What shallow mode shows of a listing are paths of its subtrees, none more
/// often than the subtrees have it.
proof fn lemma_shallow_paths(children: Seq<Node>, patterns: Set<Seq<char>>)
    ensures
        entry_paths(shallow_entries(children, patterns)).to_multiset().subset_of(
            forest_paths(children).to_multiset(),
        ),
    decreases children.len(),
{
    broadcast use vstd::multiset::group_multiset_axioms;

    if children.len() == 0 {
        entry_paths(shallow_entries(children, patterns)).to_multiset_ensures();
    } else {
        let front = shallow_entries(children.drop_last(), patterns);
        let last = children.last();
        lemma_shallow_paths(children.drop_last(), patterns);
        lemma_own_path(last);
        lemma_multiset_commutative(forest_paths(children.drop_last()), tree_paths(last));
        match shallow_entry(last, patterns) {
            Some(entry) => {
                assert(entry_paths(front.push(entry)) =~= entry_paths(front).push(last.path@));
                to_multiset_build(entry_paths(front), last.path@);
                to_multiset_build(Seq::<Seq<char>>::empty(), last.path@);
                Seq::<Seq<char>>::empty().to_multiset_ensures();
            },
            None => {},
        }
    }
}

/// Paths of which none occurs more often than in a sequence without
/// duplicates have no duplicates themselves.
proof fn lemma_part_has_no_duplicates(part: Seq<Seq<char>>, whole: Seq<Seq<char>>)
    requires
        part.to_multiset().subset_of(whole.to_multiset()),
        whole.no_duplicates(),
    ensures
        part.no_duplicates(),
{
    whole.lemma_multiset_has_no_duplicates();
    assert forall|x: Seq<char>| part.to_multiset().contains(x) implies part.to_multiset().count(x)
        == 1 by {
        assert(part.to_multiset().count(x) <= whole.to_multiset().count(x));
    }
    part.lemma_multiset_has_no_duplicates_conv();
}

/// Paths stay unique. Where no two nodes of the tree have the same path, no
/// two entries of its report have.
pub proof fn law_paths_stay_unique(root: Node, recursive: bool, patterns: Set<Seq<char>>)
    requires
        tree_paths(root).no_duplicates(),
    ensures
        entry_paths(report_of(root, recursive, patterns).entries).no_duplicates(),
{
    broadcast use vstd::multiset::group_multiset_axioms;

    match root.probe {
        Probe::Dir(children) => {
            let below = forest_paths(children@);
            assert(below.no_duplicates()) by {
                assert forall|i: int, j: int|
                    0 <= i < below.len() && 0 <= j < below.len() && i != j implies below[i]
                    != below[j] by {
                    assert(tree_paths(root)[i] == below[i]);
                    assert(tree_paths(root)[j] == below[j]);
                }
            }
            if recursive {
                lemma_listing_paths(children@, patterns, 0);
                lemma_part_has_no_duplicates(
                    entry_paths(listing_entries(children@, patterns, 0)),
                    below,
                );
            } else {
                lemma_shallow_paths(children@, patterns);
                lemma_part_has_no_duplicates(
                    entry_paths(shallow_entries(children@, patterns)),
                    below,
                );
            }
        },
        _ => {},
    }
}

} // verus!
