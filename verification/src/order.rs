//! The order of a sorted listing: larger entries first, equal sizes by name,
//! and what is still equal in the order it came in.

use vstd::prelude::*;
use vstd::seq_lib::{to_multiset_build, to_multiset_remove};
use vstd::utf8::encode_utf8;
use crate::report::{Entry, EntryView, entry_views};

verus! {

/// Whether `a` comes no later than `b` when byte strings are compared place by
/// place, a string coming before those that it begins.
pub open spec fn bytes_le(a: Seq<u8>, b: Seq<u8>) -> bool
    decreases a.len(),
{
    if a.len() == 0 {
        true
    } else if b.len() == 0 {
        false
    } else if a[0] != b[0] {
        a[0] < b[0]
    } else {
        bytes_le(a.drop_first(), b.drop_first())
    }
}

/// Whether the name `a` comes no later than the name `b`: names are compared
/// by their UTF-8 bytes.
pub open spec fn name_le(a: Seq<char>, b: Seq<char>) -> bool {
    bytes_le(encode_utf8(a), encode_utf8(b))
}

/// Whether `a` may stand before `b` in a sorted listing: it is larger, or as
/// large and its name comes no later.
pub open spec fn entry_le(a: EntryView, b: EntryView) -> bool {
    a.size > b.size || (a.size == b.size && name_le(a.name, b.name))
}

/// Whether entry `p` of `keys` must stand before entry `q` in the sorted
/// listing: `q` may not stand before `p`, or either may and `p` came first.
pub open spec fn precedes(keys: Seq<EntryView>, p: int, q: int) -> bool {
    !entry_le(keys[q], keys[p]) || (entry_le(keys[p], keys[q]) && p < q)
}

/// Whether `order` lists positions of `keys` so that each must stand before
/// all that follow it.
pub open spec fn in_order(keys: Seq<EntryView>, order: Seq<usize>) -> bool {
    forall|i: int, j: int|
        0 <= i < j < order.len() ==> precedes(keys, #[trigger] order[i] as int, #[trigger] order[j] as int)
}

/// Whether `order` holds the positions from `lo` up to `hi`, each of them
/// once.
pub open spec fn arranges(order: Seq<usize>, lo: int, hi: int) -> bool {
    &&& order.len() == hi - lo
    &&& forall|i: int| 0 <= i < order.len() ==> lo <= #[trigger] order[i] < hi
    &&& forall|i: int, j: int| 0 <= i < j < order.len() ==> #[trigger] order[i] != #[trigger] order[j]
    &&& forall|p: usize| lo <= p < hi ==> #[trigger] order.contains(p)
}

/// Whether `output` is `input` sorted: the same entries, each once, every
/// entry before those that are smaller or, at the same size, have a later
/// name, and entries equal in both in the order in which `input` has them.
pub open spec fn is_sorted_listing(input: Seq<EntryView>, output: Seq<EntryView>) -> bool {
    exists|order: Seq<usize>|
        {
            &&& arranges(order, 0, input.len() as int)
            &&& in_order(input, order)
            &&& #[trigger] placed(input, order) == output
        }
}

/// The entries of `input` at the positions in `order`.
pub open spec fn placed(input: Seq<EntryView>, order: Seq<usize>) -> Seq<EntryView> {
    order.map_values(|p: usize| input[p as int])
}

/// A byte string comes no later than itself.
pub proof fn lemma_bytes_le_reflexive(a: Seq<u8>)
    ensures
        bytes_le(a, a),
    decreases a.len(),
{
    if a.len() > 0 {
        lemma_bytes_le_reflexive(a.drop_first());
    }
}

/// Of two byte strings one comes no later than the other.
pub proof fn lemma_bytes_le_total(a: Seq<u8>, b: Seq<u8>)
    ensures
        bytes_le(a, b) || bytes_le(b, a),
    decreases a.len(),
{
    if a.len() > 0 && b.len() > 0 && a[0] == b[0] {
        lemma_bytes_le_total(a.drop_first(), b.drop_first());
    }
}

/// What comes no later than a byte string comes no later than all that the
/// string comes no later than.
pub proof fn lemma_bytes_le_transitive(a: Seq<u8>, b: Seq<u8>, c: Seq<u8>)
    requires
        bytes_le(a, b),
        bytes_le(b, c),
    ensures
        bytes_le(a, c),
    decreases a.len(),
{
    if a.len() > 0 && b.len() > 0 && c.len() > 0 && a[0] == b[0] && b[0] == c[0] {
        lemma_bytes_le_transitive(a.drop_first(), b.drop_first(), c.drop_first());
    }
}

/// Of two entries one may stand before the other, and an entry may stand
/// before itself.
pub proof fn lemma_entry_le_total(a: EntryView, b: EntryView)
    ensures
        entry_le(a, b) || entry_le(b, a),
        entry_le(a, a),
{
    lemma_bytes_le_total(encode_utf8(a.name), encode_utf8(b.name));
    lemma_bytes_le_reflexive(encode_utf8(a.name));
}

/// What may stand before an entry may stand before all that the entry may
/// stand before.
pub proof fn lemma_entry_le_transitive(a: EntryView, b: EntryView, c: EntryView)
    requires
        entry_le(a, b),
        entry_le(b, c),
    ensures
        entry_le(a, c),
{
    if a.size == b.size && b.size == c.size {
        lemma_bytes_le_transitive(encode_utf8(a.name), encode_utf8(b.name), encode_utf8(c.name));
    }
}

/// `precedes` is a strict order on positions: nothing precedes itself, and
/// what precedes a predecessor precedes.
pub proof fn lemma_precedes_strict(keys: Seq<EntryView>, p: int, q: int, r: int)
    ensures
        !precedes(keys, p, p),
        precedes(keys, p, q) && precedes(keys, q, r) ==> precedes(keys, p, r),
{
    lemma_entry_le_total(keys[p], keys[p]);
    lemma_entry_le_total(keys[p], keys[q]);
    lemma_entry_le_total(keys[q], keys[r]);
    lemma_entry_le_total(keys[p], keys[r]);
    if precedes(keys, p, q) && precedes(keys, q, r) {
        if entry_le(keys[r], keys[p]) {
            if entry_le(keys[p], keys[q]) {
                lemma_entry_le_transitive(keys[r], keys[p], keys[q]);
            }
            if entry_le(keys[q], keys[r]) {
                lemma_entry_le_transitive(keys[q], keys[r], keys[p]);
            }
        }
        if entry_le(keys[p], keys[q]) && entry_le(keys[q], keys[r]) {
            lemma_entry_le_transitive(keys[p], keys[q], keys[r]);
        }
    }
}

/// Whether `a` comes no later than `b`, place by place.
fn bytes_in_order(a: &[u8], b: &[u8]) -> (ordered: bool)
    ensures
        ordered == bytes_le(a@, b@),
{
    let mut i: usize = 0;
    assert(a@.skip(0) =~= a@ && b@.skip(0) =~= b@);
    while i < a.len() && i < b.len()
        invariant
            i <= a.len(),
            i <= b.len(),
            bytes_le(a@, b@) == bytes_le(a@.skip(i as int), b@.skip(i as int)),
        decreases a.len() - i,
    {
        if a[i] != b[i] {
            return a[i] < b[i];
        }
        assert(a@.skip(i as int).drop_first() =~= a@.skip(i + 1));
        assert(b@.skip(i as int).drop_first() =~= b@.skip(i + 1));
        i += 1;
    }
    i == a.len()
}

/// Whether `a` may stand before `b` in a sorted listing.
pub fn comes_first(a: &Entry, b: &Entry) -> (first: bool)
    ensures
        first == entry_le(a@, b@),
{
    if a.size != b.size {
        a.size > b.size
    } else {
        bytes_in_order(a.name.as_str().as_bytes(), b.name.as_str().as_bytes())
    }
}

/// What a sequence held of the first `i` of `left` and the first `j` of
/// `right`, it still holds after one more is put at its end.
proof fn lemma_push_keeps(
    before: Seq<usize>,
    x: usize,
    left: Seq<usize>,
    right: Seq<usize>,
    i: int,
    j: int,
)
    requires
        0 <= i <= left.len(),
        0 <= j <= right.len(),
        forall|a: int| 0 <= a < i ==> before.contains(#[trigger] left[a]),
        forall|b: int| 0 <= b < j ==> before.contains(#[trigger] right[b]),
    ensures
        forall|a: int| 0 <= a < i ==> before.push(x).contains(#[trigger] left[a]),
        forall|b: int| 0 <= b < j ==> before.push(x).contains(#[trigger] right[b]),
        before.push(x).contains(x),
{
    let after = before.push(x);
    assert(after[before.len() as int] == x);
    assert forall|a: int| 0 <= a < i implies after.contains(#[trigger] left[a]) by {
        let k = choose|k: int| 0 <= k < before.len() && before[k] == left[a];
        assert(after[k] == left[a]);
    }
    assert forall|b: int| 0 <= b < j implies after.contains(#[trigger] right[b]) by {
        let k = choose|k: int| 0 <= k < before.len() && before[k] == right[b];
        assert(after[k] == right[b]);
    }
}

/// Merges two sorted runs of positions, the first from below `mid` and the
/// second from `mid` on, into one.
fn merge_runs(keys: &Vec<Entry>, left: &Vec<usize>, right: &Vec<usize>, Ghost(mid): Ghost<int>) -> (out:
    Vec<usize>)
    requires
        mid <= keys.len(),
        forall|a: int| 0 <= a < left.len() ==> #[trigger] left[a] < mid,
        forall|b: int| 0 <= b < right.len() ==> mid <= #[trigger] right[b] < keys.len(),
        in_order(entry_views(keys@), left@),
        in_order(entry_views(keys@), right@),
    ensures
        out.len() == left.len() + right.len(),
        in_order(entry_views(keys@), out@),
        forall|k: int|
            0 <= k < out.len() ==> left@.contains(#[trigger] out[k]) || right@.contains(out[k]),
        forall|a: int| 0 <= a < left.len() ==> out@.contains(#[trigger] left[a]),
        forall|b: int| 0 <= b < right.len() ==> out@.contains(#[trigger] right[b]),
{
    let ghost views = entry_views(keys@);
    let mut out: Vec<usize> = Vec::new();
    let mut i: usize = 0;
    let mut j: usize = 0;
    while i < left.len() || j < right.len()
        invariant
            i <= left.len(),
            j <= right.len(),
            out.len() == i + j,
            views == entry_views(keys@),
            mid <= keys.len(),
            forall|a: int| 0 <= a < left.len() ==> #[trigger] left[a] < mid,
            forall|b: int| 0 <= b < right.len() ==> mid <= #[trigger] right[b] < keys.len(),
            in_order(views, left@),
            in_order(views, right@),
            in_order(views, out@),
            forall|k: int|
                0 <= k < out.len() ==> left@.contains(#[trigger] out[k]) || right@.contains(out[k]),
            forall|a: int| 0 <= a < i ==> out@.contains(#[trigger] left[a]),
            forall|b: int| 0 <= b < j ==> out@.contains(#[trigger] right[b]),
            forall|k: int, a: int|
                0 <= k < out.len() && i <= a < left.len() ==> precedes(
                    views,
                    #[trigger] out[k] as int,
                    #[trigger] left[a] as int,
                ),
            forall|k: int, b: int|
                0 <= k < out.len() && j <= b < right.len() ==> precedes(
                    views,
                    #[trigger] out[k] as int,
                    #[trigger] right[b] as int,
                ),
        decreases left.len() - i + right.len() - j,
    {
        let ghost before = out@;
        let from_left = if i == left.len() {
            false
        } else if j == right.len() {
            true
        } else {
            comes_first(&keys[left[i]], &keys[right[j]])
        };
        if from_left {
            let x = left[i];
            out.push(x);
            proof {
                lemma_push_keeps(before, x, left@, right@, i as int, j as int);
                assert forall|k: int, b: int|
                    0 <= k < out.len() && j <= b < right.len() implies precedes(
                    views,
                    #[trigger] out[k] as int,
                    #[trigger] right[b] as int,
                ) by {
                    if k == before.len() && b > j {
                        lemma_precedes_strict(
                            views,
                            x as int,
                            right[j as int] as int,
                            right[b] as int,
                        );
                    }
                }
            }
            i += 1;
        } else {
            let y = right[j];
            out.push(y);
            proof {
                lemma_push_keeps(before, y, left@, right@, i as int, j as int);
                if i < left.len() {
                    lemma_entry_le_total(views[left[i as int] as int], views[y as int]);
                }
                assert forall|k: int, a: int|
                    0 <= k < out.len() && i <= a < left.len() implies precedes(
                    views,
                    #[trigger] out[k] as int,
                    #[trigger] left[a] as int,
                ) by {
                    if k == before.len() && a > i {
                        lemma_precedes_strict(
                            views,
                            y as int,
                            left[i as int] as int,
                            left[a] as int,
                        );
                    }
                }
            }
            j += 1;
        }
    }
    out
}

/// What is in order holds no position twice.
pub proof fn lemma_in_order_distinct(keys: Seq<EntryView>, order: Seq<usize>)
    requires
        in_order(keys, order),
    ensures
        forall|i: int, j: int| 0 <= i < j < order.len() ==> #[trigger] order[i] != #[trigger] order[j],
{
    assert forall|i: int, j: int| 0 <= i < j < order.len() implies #[trigger] order[i]
        != #[trigger] order[j] by {
        lemma_precedes_strict(keys, order[i] as int, order[i] as int, order[i] as int);
    }
}

/// Entries placed by an arrangement of all their positions are the same
/// entries, as often each.
pub proof fn lemma_placed_same_entries(input: Seq<EntryView>, order: Seq<usize>)
    requires
        arranges(order, 0, input.len() as int),
        input.len() <= usize::MAX,
    ensures
        placed(input, order).to_multiset() == input.to_multiset(),
    decreases input.len(),
{
    broadcast use vstd::multiset::group_multiset_axioms;

    if input.len() == 0 {
        assert(placed(input, order) =~= input);
    } else {
        let n = input.len() as int;
        let last = (n - 1) as usize;
        assert(order.contains(last));
        let k = choose|k: int| 0 <= k < order.len() && order[k] == last;
        let rest = order.remove(k);
        let shorter = input.drop_last();
        assert forall|p: usize| 0 <= p < n - 1 implies #[trigger] rest.contains(p) by {
            assert(order.contains(p));
            let i = choose|i: int| 0 <= i < order.len() && order[i] == p;
            if i < k {
                assert(rest[i] == p);
            } else {
                assert(rest[i - 1] == p);
            }
        }
        lemma_placed_same_entries(shorter, rest);
        let all = placed(input, order);
        assert(all.remove(k) =~= placed(shorter, rest));
        to_multiset_remove(all, k);
        to_multiset_build(shorter, input.last());
        assert(shorter.push(input.last()) =~= input);
        all.to_multiset_ensures();
    }
}

/// In a sorted listing every entry may stand before all that follow it.
pub proof fn lemma_placed_sorted(input: Seq<EntryView>, order: Seq<usize>)
    requires
        in_order(input, order),
    ensures
        forall|i: int, j: int|
            0 <= i < j < order.len() ==> entry_le(
                #[trigger] placed(input, order)[i],
                #[trigger] placed(input, order)[j],
            ),
{
    assert forall|i: int, j: int| 0 <= i < j < order.len() implies entry_le(
        #[trigger] placed(input, order)[i],
        #[trigger] placed(input, order)[j],
    ) by {
        lemma_entry_le_total(input[order[i] as int], input[order[j] as int]);
    }
}

/// Two arrangements of the same positions that are both in order agree at
/// every place.
proof fn lemma_one_order(keys: Seq<EntryView>, first: Seq<usize>, second: Seq<usize>, n: int, i: int)
    requires
        arranges(first, 0, n),
        arranges(second, 0, n),
        in_order(keys, first),
        in_order(keys, second),
        0 <= i < n,
    ensures
        first[i] == second[i],
    decreases i,
{
    assert forall|h: int| 0 <= h < i implies first[h] == second[h] by {
        lemma_one_order(keys, first, second, n, h);
    }
    let x = first[i];
    let y = second[i];
    if x != y {
        assert(second.contains(x));
        let j = choose|j: int| 0 <= j < second.len() && second[j] == x;
        assert(first.contains(y));
        let k = choose|k: int| 0 <= k < first.len() && first[k] == y;
        if j >= i && k >= i {
            lemma_precedes_strict(keys, x as int, y as int, x as int);
        }
    }
}

/// There is one sorted listing. Two outputs that are both the input sorted
/// are the same sequence.
pub proof fn law_sorted_listing_is_unique(
    input: Seq<EntryView>,
    first: Seq<EntryView>,
    second: Seq<EntryView>,
)
    requires
        is_sorted_listing(input, first),
        is_sorted_listing(input, second),
    ensures
        first == second,
{
    let n = input.len() as int;
    let a = choose|order: Seq<usize>|
        arranges(order, 0, n) && in_order(input, order) && #[trigger] placed(input, order) == first;
    let b = choose|order: Seq<usize>|
        arranges(order, 0, n) && in_order(input, order) && #[trigger] placed(input, order)
            == second;
    assert forall|i: int| 0 <= i < n implies a[i] == b[i] by {
        lemma_one_order(input, a, b, n, i);
    }
}

/// The positions from `lo` up to `hi`, sorted.
fn sort_range(keys: &Vec<Entry>, lo: usize, hi: usize) -> (order: Vec<usize>)
    requires
        lo <= hi <= keys.len(),
    ensures
        arranges(order@, lo as int, hi as int),
        in_order(entry_views(keys@), order@),
    decreases hi - lo,
{
    let mut order: Vec<usize> = Vec::new();
    if hi - lo == 0 {
        order
    } else if hi - lo == 1 {
        order.push(lo);
        assert(order@[0] == lo);
        order
    } else {
        let mid = lo + (hi - lo) / 2;
        let left = sort_range(keys, lo, mid);
        let right = sort_range(keys, mid, hi);
        let out = merge_runs(keys, &left, &right, Ghost(mid as int));
        proof {
            lemma_in_order_distinct(entry_views(keys@), out@);
            assert forall|p: usize| lo <= p < hi implies #[trigger] out@.contains(p) by {
                if p < mid {
                    assert(left@.contains(p));
                } else {
                    assert(right@.contains(p));
                }
            }
        }
        out
    }
}

/// `entries` sorted: larger entries first, equal sizes by name, and what is
/// still equal in the order it came in.
pub fn sort_by_size(entries: &Vec<Entry>) -> (sorted: Vec<Entry>)
    ensures
        is_sorted_listing(entry_views(entries@), entry_views(sorted@)),
        sorted.len() == entries.len(),
        entry_views(sorted@).to_multiset() == entry_views(entries@).to_multiset(),
        forall|i: int, j: int|
            0 <= i < j < sorted.len() ==> entry_le(
                #[trigger] entry_views(sorted@)[i],
                #[trigger] entry_views(sorted@)[j],
            ),
{
    let order = sort_range(entries, 0, entries.len());
    let ghost views = entry_views(entries@);
    let mut sorted: Vec<Entry> = Vec::new();
    let mut i: usize = 0;
    while i < order.len()
        invariant
            i <= order.len(),
            views == entry_views(entries@),
            arranges(order@, 0, entries.len() as int),
            sorted.len() == i,
            forall|k: int| 0 <= k < i ==> (#[trigger] sorted[k])@ == views[order[k] as int],
        decreases order.len() - i,
    {
        let entry = &entries[order[i]];
        sorted.push(
            Entry {
                name: entry.name.clone(),
                size: entry.size,
                is_dir: entry.is_dir,
                path: entry.path.clone(),
            },
        );
        i += 1;
    }
    proof {
        assert(placed(views, order@) =~= entry_views(sorted@));
        lemma_placed_same_entries(views, order@);
        lemma_placed_sorted(views, order@);
    }
    sorted
}

} // verus!
