//! What a scan observes of a directory tree, and the byte sums defined on it.

use vstd::prelude::*;
use crate::exclusion::excluded;

verus! {

/// What probing one path found.
#[derive(Debug, PartialEq, Eq)]
pub enum Probe {
    /// A regular file and its length in bytes.
    File(u64),
    /// A directory and its direct children, in listing order.
    Dir(Vec<Node>),
    /// A directory whose listing could not be read.
    Unreadable,
    /// Something that is neither a regular file nor a directory, and the
    /// length that its metadata reports.
    Other(u64),
    /// A path whose metadata could not be read.
    Unresolved,
}

/// One node of the observed tree.
#[derive(Debug, PartialEq, Eq)]
pub struct Node {
    /// The last component of the path.
    pub name: String,
    /// The full path.
    pub path: String,
    pub probe: Probe,
}

/// What the metadata of a path say.
#[derive(Debug, Clone, Copy, PartialEq, Eq)]
pub struct Stat {
    pub is_file: bool,
    pub is_dir: bool,
    /// The length in bytes.
    pub len: u64,
}

/// What a path is, given its metadata (`None` where they could not be read)
/// and its listing (`None` where it was not listed or could not be): a regular
/// file with its length, a directory with its children, or neither.
pub open spec fn probe_of(stat: Option<Stat>, listing: Option<Vec<Node>>) -> Probe {
    match stat {
        None => Probe::Unresolved,
        Some(stat) => {
            if stat.is_file {
                Probe::File(stat.len)
            } else if stat.is_dir {
                match listing {
                    Some(children) => Probe::Dir(children),
                    None => Probe::Unreadable,
                }
            } else {
                Probe::Other(stat.len)
            }
        },
    }
}

impl Node {
    /// The node of a path of which the file system said `stat` and `listing`.
    pub fn probed(name: String, path: String, stat: Option<Stat>, listing: Option<Vec<Node>>) -> (node:
        Node)
        ensures
            node.name == name,
            node.path == path,
            node.probe == probe_of(stat, listing),
    {
        let probe = match stat {
            None => Probe::Unresolved,
            Some(stat) => {
                if stat.is_file {
                    Probe::File(stat.len)
                } else if stat.is_dir {
                    match listing {
                        Some(children) => Probe::Dir(children),
                        None => Probe::Unreadable,
                    }
                } else {
                    Probe::Other(stat.len)
                }
            },
        };
        Node { name, path, probe }
    }
}

/// The lengths of all regular files in the subtree of `node`, `node` included,
/// added up. Nothing is excluded.
pub open spec fn tree_bytes(node: Node) -> nat
    decreases node,
{
    match node.probe {
        Probe::File(len) => len as nat,
        Probe::Dir(children) => forest_bytes(children@),
        _ => 0,
    }
}

/// The sum of `tree_bytes` over `nodes`.
pub open spec fn forest_bytes(nodes: Seq<Node>) -> nat
    decreases nodes,
{
    if nodes.len() == 0 {
        0
    } else {
        forest_bytes(nodes.drop_last()) + tree_bytes(nodes.last())
    }
}

/// What one entry of a listing adds to the total of that listing, when the
/// listing lies `depth` levels below the direct children of the scan root: nothing
/// if its name is excluded at that depth, its length if it is a file, the total
/// of its own listing, one level deeper, if it is a directory.
pub open spec fn child_bytes(child: Node, patterns: Set<Seq<char>>, depth: nat) -> nat
    decreases child,
{
    if excluded(depth, child.name@, patterns, true) {
        0
    } else {
        match child.probe {
            Probe::File(len) => len as nat,
            Probe::Dir(children) => listing_bytes(children@, patterns, depth + 1),
            _ => 0,
        }
    }
}

/// The sum of `child_bytes` over a listing.
pub open spec fn listing_bytes(children: Seq<Node>, patterns: Set<Seq<char>>, depth: nat) -> nat
    decreases children,
{
    if children.len() == 0 {
        0
    } else {
        listing_bytes(children.drop_last(), patterns, depth) + child_bytes(
            children.last(),
            patterns,
            depth,
        )
    }
}

/// What a scan that starts at `node` counts, when the direct children of `node`
/// lie at `depth`: the length of a file, the total of a directory's listing,
/// nothing for anything else.
pub open spec fn subtree_bytes(node: Node, patterns: Set<Seq<char>>, depth: nat) -> nat {
    match node.probe {
        Probe::File(len) => len as nat,
        Probe::Dir(children) => listing_bytes(children@, patterns, depth),
        _ => 0,
    }
}

/// The total of two listings joined is the sum of their totals.
pub proof fn lemma_listing_bytes_concat(
    front: Seq<Node>,
    back: Seq<Node>,
    patterns: Set<Seq<char>>,
    depth: nat,
)
    ensures
        listing_bytes(front + back, patterns, depth) == listing_bytes(front, patterns, depth)
            + listing_bytes(back, patterns, depth),
    decreases back.len(),
{
    if back.len() > 0 {
        assert((front + back).drop_last() =~= front + back.drop_last());
        lemma_listing_bytes_concat(front, back.drop_last(), patterns, depth);
    }
}

/// The total of a listing is what entry `k` adds and the total of the listing
/// without it.
pub proof fn lemma_listing_bytes_remove(
    children: Seq<Node>,
    patterns: Set<Seq<char>>,
    depth: nat,
    k: int,
)
    requires
        0 <= k < children.len(),
    ensures
        listing_bytes(children, patterns, depth) == listing_bytes(
            children.remove(k),
            patterns,
            depth,
        ) + child_bytes(children[k], patterns, depth),
{
    let front = children.take(k);
    let back = children.skip(k + 1);
    let it = seq![children[k]];
    assert(children =~= front + it + back);
    lemma_listing_bytes_concat(front + it, back, patterns, depth);
    lemma_listing_bytes_concat(front, it, patterns, depth);
    lemma_listing_bytes_concat(front, back, patterns, depth);
    assert(listing_bytes(it.drop_last(), patterns, depth) == 0);
}

/// The total of the first `k + 1` entries of a listing is the total of the
/// first `k` plus what entry `k` adds, and no more than the whole.
pub proof fn lemma_listing_bytes_step(
    children: Seq<Node>,
    patterns: Set<Seq<char>>,
    depth: nat,
    k: int,
)
    requires
        0 <= k < children.len(),
    ensures
        listing_bytes(children.take(k + 1), patterns, depth) == listing_bytes(
            children.take(k),
            patterns,
            depth,
        ) + child_bytes(children[k], patterns, depth),
        listing_bytes(children.take(k + 1), patterns, depth) <= listing_bytes(
            children,
            patterns,
            depth,
        ),
{
    assert(children.take(k + 1).drop_last() =~= children.take(k));
    assert(children =~= children.take(k + 1) + children.skip(k + 1));
    lemma_listing_bytes_concat(children.take(k + 1), children.skip(k + 1), patterns, depth);
}

/// Below the direct children of the scan root no name is excluded: an entry
/// there adds all the file bytes of its subtree, whatever the patterns are.
pub proof fn lemma_child_bytes_below_root(child: Node, patterns: Set<Seq<char>>, depth: nat)
    requires
        depth >= 1,
    ensures
        child_bytes(child, patterns, depth) == tree_bytes(child),
    decreases child,
{
    match child.probe {
        Probe::Dir(children) => {
            lemma_listing_bytes_below_root(children@, patterns, depth + 1);
        },
        _ => {},
    }
}

/// Below the direct children of the scan root the total of a listing is the
/// sum of all file bytes under it, whatever the patterns are.
pub proof fn lemma_listing_bytes_below_root(
    children: Seq<Node>,
    patterns: Set<Seq<char>>,
    depth: nat,
)
    requires
        depth >= 1,
    ensures
        listing_bytes(children, patterns, depth) == forest_bytes(children),
    decreases children,
{
    if children.len() > 0 {
        lemma_listing_bytes_below_root(children.drop_last(), patterns, depth);
        lemma_child_bytes_below_root(children.last(), patterns, depth);
    }
}

} // verus!
