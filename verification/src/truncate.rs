//! Shortening a file name to a display width, with an ellipsis in the middle.

use vstd::prelude::*;
use vstd::string::{StrSliceExecFns, StringExecFns};
use crate::columns::{cell_widths, column_widths, text_columns, text_width};

verus! {

/// How many leading characters fit in `budget` columns, taken one by one from
/// the front until one does not fit.
pub open spec fn head_len(widths: Seq<usize>, budget: int) -> nat
    decreases widths.len(),
{
    if widths.len() == 0 || widths[0] > budget {
        0
    } else {
        1 + head_len(widths.drop_first(), budget - widths[0])
    }
}

/// How many trailing characters fit in `budget` columns, taken one by one from
/// the back until one does not fit.
pub open spec fn tail_len(widths: Seq<usize>, budget: int) -> nat
    decreases widths.len(),
{
    if widths.len() == 0 || widths.last() > budget {
        0
    } else {
        1 + tail_len(widths.drop_last(), budget - widths.last())
    }
}

/// The three dots that stand for what was cut.
pub open spec fn ellipsis() -> Seq<char> {
    seq!['.', '.', '.']
}

/// `text` cut down to `max_width` columns, where `widths` holds the width of
/// each of its characters and `total` the width of the whole.
///
/// A text that fits stays as it is. In three columns or fewer only the dots
/// remain. Otherwise three columns go to the dots; if six or more are left, one
/// half of them (rounded down) is filled from the front of the text and the
/// other from its back, and with fewer all of them are filled from the front.
/// The back is added only if the front did not take the whole text; the two
/// are measured apart, so they may overlap where `total` exceeds the sum of
/// `widths`.
pub open spec fn truncated(
    text: Seq<char>,
    widths: Seq<usize>,
    total: usize,
    max_width: usize,
) -> Seq<char> {
    if total <= max_width {
        text
    } else if max_width <= 3 {
        ellipsis()
    } else {
        let available = max_width - 3;
        if available >= 6 {
            let head_budget = available / 2;
            let tail_budget = available - head_budget;
            let head = head_len(widths, head_budget);
            let kept = text.take(head as int) + ellipsis();
            if head < text.len() {
                kept + text.skip(text.len() - tail_len(widths, tail_budget))
            } else {
                kept
            }
        } else {
            text.take(head_len(widths, available) as int) + ellipsis()
        }
    }
}

/// The widths in `widths`, added up.
pub open spec fn width_sum(widths: Seq<usize>) -> nat
    decreases widths.len(),
{
    if widths.len() == 0 {
        0
    } else {
        widths[0] as nat + width_sum(widths.drop_first())
    }
}

/// The leading characters that are kept fit in the budget, and the next one,
/// if there is one, would not.
pub proof fn lemma_head_fits(widths: Seq<usize>, budget: int)
    requires
        0 <= budget,
    ensures
        head_len(widths, budget) <= widths.len(),
        width_sum(widths.take(head_len(widths, budget) as int)) <= budget,
        head_len(widths, budget) < widths.len() ==> width_sum(
            widths.take(head_len(widths, budget) as int),
        ) + widths[head_len(widths, budget) as int] > budget,
    decreases widths.len(),
{
    if widths.len() > 0 && widths[0] <= budget {
        let rest = widths.drop_first();
        let kept = head_len(rest, budget - widths[0]);
        lemma_head_fits(rest, budget - widths[0]);
        assert(widths.take(kept as int + 1).drop_first() =~= rest.take(kept as int));
    }
}

/// The trailing characters that are kept fit in the budget, and the one
/// before them, if there is one, would not.
pub proof fn lemma_tail_fits(widths: Seq<usize>, budget: int)
    requires
        0 <= budget,
    ensures
        tail_len(widths, budget) <= widths.len(),
        width_sum(widths.skip(widths.len() - tail_len(widths, budget))) <= budget,
        tail_len(widths, budget) < widths.len() ==> width_sum(
            widths.skip(widths.len() - tail_len(widths, budget)),
        ) + widths[widths.len() - tail_len(widths, budget) - 1] > budget,
    decreases widths.len(),
{
    if widths.len() > 0 && widths.last() <= budget {
        let rest = widths.drop_last();
        let kept = tail_len(rest, budget - widths.last());
        lemma_tail_fits(rest, budget - widths.last());
        let from = widths.len() - kept - 1;
        assert(widths.skip(from) =~= rest.skip(from).push(widths.last()));
        lemma_width_sum_push(rest.skip(from), widths.last());
    }
}

/// A width put at the end adds to the sum.
pub proof fn lemma_width_sum_push(widths: Seq<usize>, last: usize)
    ensures
        width_sum(widths.push(last)) == width_sum(widths) + last,
    decreases widths.len(),
{
    let all = widths.push(last);
    if widths.len() == 0 {
        assert(width_sum(all.drop_first()) == 0);
    } else {
        assert(all.drop_first() =~= widths.drop_first().push(last));
        lemma_width_sum_push(widths.drop_first(), last);
    }
}

/// Counts the leading characters that fit in `budget` columns.
fn fitting_head(widths: &[usize], budget: usize) -> (count: usize)
    ensures
        count == head_len(widths@, budget as int),
        count <= widths@.len(),
{
    let mut used: usize = 0;
    let mut i: usize = 0;
    assert(widths@.skip(0) =~= widths@);
    while i < widths.len()
        invariant
            i <= widths.len(),
            used <= budget,
            head_len(widths@, budget as int) == i + head_len(widths@.skip(i as int), budget - used),
        decreases widths.len() - i,
    {
        let width = widths[i];
        assert(widths@.skip(i as int).drop_first() =~= widths@.skip(i + 1));
        if width > budget - used {
            return i;
        }
        used += width;
        i += 1;
    }
    i
}

/// Counts the trailing characters that fit in `budget` columns.
fn fitting_tail(widths: &[usize], budget: usize) -> (count: usize)
    ensures
        count == tail_len(widths@, budget as int),
        count <= widths@.len(),
{
    let n = widths.len();
    let mut used: usize = 0;
    let mut i: usize = n;
    assert(widths@.take(n as int) =~= widths@);
    while i > 0
        invariant
            i <= n,
            n == widths.len(),
            used <= budget,
            tail_len(widths@, budget as int) == (n - i) + tail_len(
                widths@.take(i as int),
                budget - used,
            ),
        decreases i,
    {
        let width = widths[i - 1];
        assert(widths@.take(i as int).drop_last() =~= widths@.take(i - 1));
        if width > budget - used {
            return n - i;
        }
        used += width;
        i -= 1;
    }
    n - i
}

/// Cuts `name` down to `max_width` columns, given the width of each of its
/// characters and the width of the whole.
pub fn truncate_with_widths(name: &str, widths: &[usize], total: usize, max_width: usize) -> (out:
    String)
    requires
        widths@.len() == name@.len(),
    ensures
        out@ == truncated(name@, widths@, total, max_width),
{
    proof {
        reveal_strlit("...");
    }
    if total <= max_width {
        name.to_owned()
    } else if max_width <= 3 {
        "...".to_owned()
    } else {
        let n = widths.len();
        let available = max_width - 3;
        if available >= 6 {
            let head_budget = available / 2;
            let tail_budget = available - head_budget;
            let head = fitting_head(widths, head_budget);
            let mut out = name.substring_char(0, head).to_owned();
            out.append("...");
            if n > head {
                let tail = fitting_tail(widths, tail_budget);
                out.append(name.substring_char(n - tail, n));
            }
            out
        } else {
            let head = fitting_head(widths, available);
            let mut out = name.substring_char(0, head).to_owned();
            out.append("...");
            out
        }
    }
}

/// Cuts `name` down to `max_width` columns of display width.
pub fn truncate_filename(name: &str, max_width: usize) -> (out: String)
    ensures
        out@ == truncated(name@, cell_widths(name@), text_columns(name@), max_width),
{
    let total = text_width(name);
    if total <= max_width {
        return name.to_owned();
    }
    let widths = column_widths(name);
    truncate_with_widths(name, widths.as_slice(), total, max_width)
}

} // verus!
