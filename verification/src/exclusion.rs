//! Exclusion of entries by name.

use vstd::prelude::*;
use crate::text::same_text;

verus! {

/// The names that a list of exclusion patterns stands for.
pub open spec fn pattern_set(excludes: Seq<String>) -> Set<Seq<char>> {
    Set::new(|p: Seq<char>| exists|i: int| 0 <= i < excludes.len() && #[trigger] excludes[i]@ == p)
}

/// Whether an entry called `name`, found `depth` levels below the direct
/// children of the scan root, is skipped. Only an exact match counts, and with
/// `root_only` only at depth 0.
pub open spec fn excluded(depth: nat, name: Seq<char>, patterns: Set<Seq<char>>, root_only: bool) -> bool {
    patterns.contains(name) && (!root_only || depth == 0)
}

/// Whether the entry called `name`, found at `depth`, is skipped: its name is
/// one of `excludes`, and it lies at depth 0 or `only_root` is not set.
pub fn should_exclude(depth: usize, name: &str, excludes: &[String], only_root: bool) -> (skip: bool)
    ensures
        skip == excluded(depth as nat, name@, pattern_set(excludes@), only_root),
{
    if only_root && depth > 0 {
        return false;
    }
    let mut i: usize = 0;
    while i < excludes.len()
        invariant
            i <= excludes.len(),
            !only_root || depth == 0,
            forall|j: int| 0 <= j < i ==> excludes[j]@ != name@,
        decreases excludes.len() - i,
    {
        if same_text(name, excludes[i].as_str()) {
            return true;
        }
        i += 1;
    }
    false
}

} // verus!
