//! The arithmetic of the text listing: the width to print in, the widths of
//! its columns, and what each row holds.

use vstd::prelude::*;
use crate::ansi::{strip_ansi_codes, stripped};
use crate::columns::{cell_widths, text_columns, text_width};
use crate::report::{Entry, EntryView, entry_views};
use crate::truncate::{truncate_filename, truncated};

verus! {

/// `value` held between `low` and `high`.
pub open spec fn clamped(value: int, low: int, high: int) -> int {
    if value < low {
        low
    } else if value > high {
        high
    } else {
        value
    }
}

/// The width to print in, for a terminal of `columns` columns: that width,
/// held between 60 and 160, and 100 where no terminal answers.
pub open spec fn display_width(columns: Option<u16>) -> int {
    match columns {
        Some(width) => clamped(width as int, 60, 160),
        None => 100,
    }
}

/// `terminal_size::terminal_size`. It asks the standard streams for the size
/// of the terminal behind them, so the answer depends on where the process
/// runs; nothing is claimed of it.
#[verifier::external_body]
fn terminal_columns() -> (columns: Option<u16>) {
    match terminal_size::terminal_size() {
        Some((terminal_size::Width(width), _)) => Some(width),
        None => None,
    }
}

/// The width to print in, for a terminal of `columns` columns.
pub fn width_for(columns: Option<u16>) -> (width: usize)
    ensures
        width == display_width(columns),
{
    match columns {
        Some(w) => {
            if w < 60 {
                60
            } else if w > 160 {
                160
            } else {
                w as usize
            }
        },
        None => 100,
    }
}

/// The width to print in, for the terminal of this process. Every width from
/// 60 to 160 can come back, and no other.
pub fn get_terminal_width() -> (width: usize)
    ensures
        60 <= width <= 160,
{
    width_for(terminal_columns())
}

/// The widths of the text listing.
#[derive(Debug, Clone, Copy, PartialEq, Eq)]
pub struct Layout {
    /// The columns that a file name may take.
    pub filename_width: usize,
    /// The columns of the bar chart with its brackets, 0 without a chart.
    pub chart_width: usize,
    /// The columns of a whole row, and so of the rules above and below.
    pub actual_width: usize,
}

/// The columns of a row that are not the file name: 3 for the icon, 12 for
/// the size, 2 twice between them, and 42 for the chart where there is one.
pub open spec fn fixed_columns(show_chart: bool) -> int {
    3 + 12 + 2 * 2 + if show_chart {
        42int
    } else {
        0int
    }
}

/// The columns that a file name may take in a listing `display_width` wide:
/// what the fixed columns leave, held between 20 and 50 beside a chart and
/// between 30 and 80 without one.
pub open spec fn filename_columns(display_width: int, show_chart: bool) -> int {
    let left = if display_width >= fixed_columns(show_chart) {
        display_width - fixed_columns(show_chart)
    } else {
        0
    };
    if show_chart {
        clamped(left, 20, 50)
    } else {
        clamped(left, 30, 80)
    }
}

/// Lays out the text listing for a display of `display_width` columns.
pub fn text_layout(display_width: usize, show_chart: bool) -> (layout: Layout)
    ensures
        layout.filename_width == filename_columns(display_width as int, show_chart),
        layout.chart_width == if show_chart { 42int } else { 0int },
        layout.actual_width == fixed_columns(show_chart) + layout.filename_width,
{
    let size_width: usize = 12;
    let chart_width: usize = if show_chart {
        42
    } else {
        0
    };
    let icon_width: usize = 3;
    let spacing: usize = 2;
    let used_width = icon_width + size_width + chart_width + spacing * 2;
    let available_width = display_width.saturating_sub(used_width);
    let (low, high): (usize, usize) = if show_chart {
        (20, 50)
    } else {
        (30, 80)
    };
    let filename_width = if available_width < low {
        low
    } else if available_width > high {
        high
    } else {
        available_width
    };
    let actual_width = icon_width + filename_width + size_width + chart_width + spacing * 2;
    Layout { filename_width, chart_width, actual_width }
}

/// The largest size among `entries`, and 1 where there is none.
pub open spec fn largest_size(entries: Seq<EntryView>) -> nat
    decreases entries.len(),
{
    if entries.len() == 0 {
        1
    } else if entries.len() == 1 {
        entries[0].size
    } else {
        let rest = largest_size(entries.drop_last());
        if entries.last().size > rest {
            entries.last().size
        } else {
            rest
        }
    }
}

/// The size that the longest bar of the chart stands for.
pub fn max_size(entries: &Vec<Entry>) -> (largest: u64)
    ensures
        largest == largest_size(entry_views(entries@)),
{
    if entries.len() == 0 {
        return 1;
    }
    let ghost views = entry_views(entries@);
    let mut largest = entries[0].size;
    let mut i: usize = 1;
    while i < entries.len()
        invariant
            1 <= i <= entries.len(),
            views == entry_views(entries@),
            largest == largest_size(views.take(i as int)),
        decreases entries.len() - i,
    {
        assert(views.take(i + 1).drop_last() =~= views.take(i as int));
        if entries[i].size > largest {
            largest = entries[i].size;
        }
        i += 1;
    }
    assert(views.take(i as int) =~= views);
    largest
}

/// One row of the text listing.
#[derive(Debug, Clone, PartialEq, Eq)]
pub struct Row {
    /// The name, cut to the width of its column.
    pub name: String,
    /// The blanks that fill the column after the name.
    pub padding: usize,
    pub size: u64,
    pub is_dir: bool,
}

/// A `Row` as a plain value.
pub struct RowView {
    pub name: Seq<char>,
    pub padding: nat,
    pub size: nat,
    pub is_dir: bool,
}

impl View for Row {
    type V = RowView;

    open spec fn view(&self) -> RowView {
        RowView {
            name: self.name@,
            padding: self.padding as nat,
            size: self.size as nat,
            is_dir: self.is_dir,
        }
    }
}

/// The blanks after a name that shows `shown` columns wide in a column of
/// `filename_width`.
pub open spec fn padding_for(filename_width: int, shown: int) -> nat {
    if filename_width >= shown {
        (filename_width - shown) as nat
    } else {
        0
    }
}

/// The blanks after a name that shows `shown` columns wide in a column of
/// `filename_width`.
pub fn pad_width(filename_width: usize, shown: usize) -> (blanks: usize)
    ensures
        blanks == padding_for(filename_width as int, shown as int),
{
    filename_width.saturating_sub(shown)
}

/// The row of `entry` in a listing whose names take `filename_width` columns:
/// the name cut to that width, and the blanks that its visible width leaves.
pub open spec fn row_of(entry: EntryView, filename_width: usize) -> RowView {
    let name = truncated(
        entry.name,
        cell_widths(entry.name),
        text_columns(entry.name),
        filename_width,
    );
    RowView {
        name,
        padding: padding_for(filename_width as int, text_columns(stripped(name)) as int),
        size: entry.size,
        is_dir: entry.is_dir,
    }
}

/// Builds the row of `entry`.
pub fn text_row(entry: &Entry, filename_width: usize) -> (row: Row)
    ensures
        row@ == row_of(entry@, filename_width),
{
    let name = truncate_filename(entry.name.as_str(), filename_width);
    let visible = strip_ansi_codes(name.as_str());
    let shown = text_width(visible.as_str());
    let padding = pad_width(filename_width, shown);
    Row { name, padding, size: entry.size, is_dir: entry.is_dir }
}

/// The rows of `entries`, in order.
pub open spec fn rows_of(entries: Seq<EntryView>, filename_width: usize) -> Seq<RowView> {
    entries.map_values(|entry: EntryView| row_of(entry, filename_width))
}

/// The views of a sequence of rows, in the same order.
pub open spec fn row_views(rows: Seq<Row>) -> Seq<RowView> {
    rows.map_values(|row: Row| row@)
}

/// Builds the rows of the text listing.
pub fn text_rows(entries: &Vec<Entry>, filename_width: usize) -> (rows: Vec<Row>)
    ensures
        row_views(rows@) == rows_of(entry_views(entries@), filename_width),
{
    let mut rows: Vec<Row> = Vec::new();
    let mut i: usize = 0;
    while i < entries.len()
        invariant
            i <= entries.len(),
            rows@.len() == i,
            row_views(rows@) == rows_of(entry_views(entries@).take(i as int), filename_width),
        decreases entries.len() - i,
    {
        let ghost before = rows@;
        let ghost views = entry_views(entries@);
        let row = text_row(&entries[i], filename_width);
        rows.push(row);
        assert forall|j: int| 0 <= j < i + 1 implies row_views(rows@)[j] == rows_of(
            views.take(i + 1),
            filename_width,
        )[j] by {
            if j < i {
                assert(row_views(before)[j] == rows_of(views.take(i as int), filename_width)[j]);
            }
        }
        i += 1;
    }
    rows
}

} // verus!
