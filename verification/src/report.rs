//! The result of a scan: entries, a report, and the sums over entries that a
//! report's total is defined by.

use vstd::prelude::*;
use vstd::string::StringExecFns;

verus! {

/// One node of the scanned tree as a report shows it.
#[derive(Debug, Clone, PartialEq, Eq)]
pub struct Entry {
    pub name: String,
    /// For a file its length; for a directory the file bytes of its subtree.
    pub size: u64,
    pub is_dir: bool,
    pub path: String,
}

/// An `Entry` as a plain value.
pub struct EntryView {
    pub name: Seq<char>,
    pub size: nat,
    pub is_dir: bool,
    pub path: Seq<char>,
}

impl View for Entry {
    type V = EntryView;

    open spec fn view(&self) -> EntryView {
        EntryView { name: self.name@, size: self.size as nat, is_dir: self.is_dir, path: self.path@ }
    }
}

/// The outcome of one scan.
#[derive(Debug, PartialEq, Eq)]
pub struct Report {
    pub total_size: u64,
    pub entries: Vec<Entry>,
    /// The scanned root.
    pub path: String,
}

/// A `Report` as a plain value.
pub struct ReportView {
    pub total_size: nat,
    pub entries: Seq<EntryView>,
    pub path: Seq<char>,
}

/// The views of a sequence of entries, in the same order.
pub open spec fn entry_views(entries: Seq<Entry>) -> Seq<EntryView> {
    entries.map_values(|e: Entry| e@)
}

impl View for Report {
    type V = ReportView;

    open spec fn view(&self) -> ReportView {
        ReportView {
            total_size: self.total_size as nat,
            entries: entry_views(self.entries@),
            path: self.path@,
        }
    }
}

/// Why a scan gave no report.
#[derive(Debug, PartialEq, Eq)]
pub enum ScanError {
    /// The root does not exist; the value is its path.
    NotFound(String),
}

/// What is said of a root that does not exist: that the path does not exist,
/// and the path.
pub open spec fn not_found_message(path: Seq<char>) -> Seq<char> {
    "路径不存在: "@ + path
}

impl ScanError {
    /// The failure in words.
    pub fn message(&self) -> (text: String)
        ensures
            self matches ScanError::NotFound(path) ==> text@ == not_found_message(path@),
    {
        match self {
            ScanError::NotFound(path) => {
                let mut text = "路径不存在: ".to_owned();
                text.append(path.as_str());
                text
            },
        }
    }
}

/// What an entry counts for in a total: its size, or nothing for a directory
/// when only files count.
pub open spec fn entry_weight(entry: EntryView, files_only: bool) -> nat {
    if files_only && entry.is_dir {
        0
    } else {
        entry.size
    }
}

/// The sum of `entry_weight` over `entries`.
pub open spec fn weight_total(entries: Seq<EntryView>, files_only: bool) -> nat
    decreases entries.len(),
{
    if entries.len() == 0 {
        0
    } else {
        weight_total(entries.drop_last(), files_only) + entry_weight(entries.last(), files_only)
    }
}

/// The sizes of the entries that are files, added up.
pub open spec fn file_total(entries: Seq<EntryView>) -> nat {
    weight_total(entries, true)
}

/// The sizes of all entries, added up.
pub open spec fn size_total(entries: Seq<EntryView>) -> nat {
    weight_total(entries, false)
}

/// A total over a concatenation is the sum of the totals of its parts.
pub proof fn lemma_weight_total_concat(a: Seq<EntryView>, b: Seq<EntryView>, files_only: bool)
    ensures
        weight_total(a + b, files_only) == weight_total(a, files_only) + weight_total(b, files_only),
    decreases b.len(),
{
    if b.len() > 0 {
        assert((a + b).drop_last() =~= a + b.drop_last());
        lemma_weight_total_concat(a, b.drop_last(), files_only);
    }
}

/// A total over the first `k` entries is at most the total over all of them.
pub proof fn lemma_weight_total_take(entries: Seq<EntryView>, k: int, files_only: bool)
    requires
        0 <= k <= entries.len(),
    ensures
        weight_total(entries.take(k), files_only) <= weight_total(entries, files_only),
{
    assert(entries =~= entries.take(k) + entries.skip(k));
    lemma_weight_total_concat(entries.take(k), entries.skip(k), files_only);
}

/// The total over the first `k + 1` entries is the total over the first `k`
/// plus the weight of entry `k`.
pub proof fn lemma_weight_total_step(entries: Seq<EntryView>, k: int, files_only: bool)
    requires
        0 <= k < entries.len(),
    ensures
        weight_total(entries.take(k + 1), files_only) == weight_total(entries.take(k), files_only)
            + entry_weight(entries[k], files_only),
{
    assert(entries.take(k + 1).drop_last() =~= entries.take(k));
}

/// Adds up the weights of `entries`.
pub fn sum_sizes(entries: &Vec<Entry>, files_only: bool) -> (total: u64)
    requires
        weight_total(entry_views(entries@), files_only) <= u64::MAX,
    ensures
        total == weight_total(entry_views(entries@), files_only),
{
    let ghost views = entry_views(entries@);
    let mut total: u64 = 0;
    let mut i: usize = 0;
    while i < entries.len()
        invariant
            i <= entries.len(),
            views == entry_views(entries@),
            weight_total(views, files_only) <= u64::MAX,
            total == weight_total(views.take(i as int), files_only),
        decreases entries.len() - i,
    {
        proof {
            lemma_weight_total_step(views, i as int, files_only);
            lemma_weight_total_take(views, i + 1, files_only);
        }
        if !(files_only && entries[i].is_dir) {
            total += entries[i].size;
        }
        i += 1;
    }
    assert(views.take(i as int) =~= views);
    total
}

/// The figures of a report without its entries.
#[derive(Debug, PartialEq, Eq)]
pub struct Summary {
    pub path: String,
    pub total_size: u64,
    pub item_count: usize,
    pub file_count: usize,
    pub dir_count: usize,
}

/// A `Summary` as a plain value.
pub struct SummaryView {
    pub path: Seq<char>,
    pub total_size: nat,
    pub item_count: nat,
    pub file_count: nat,
    pub dir_count: nat,
}

impl View for Summary {
    type V = SummaryView;

    open spec fn view(&self) -> SummaryView {
        SummaryView {
            path: self.path@,
            total_size: self.total_size as nat,
            item_count: self.item_count as nat,
            file_count: self.file_count as nat,
            dir_count: self.dir_count as nat,
        }
    }
}

/// How many of `entries` are directories.
pub open spec fn dir_count(entries: Seq<EntryView>) -> nat
    decreases entries.len(),
{
    if entries.len() == 0 {
        0
    } else {
        dir_count(entries.drop_last()) + if entries.last().is_dir {
            1nat
        } else {
            0nat
        }
    }
}

/// The summary of a report: its path and total, the number of its entries,
/// and how many of them are directories and how many are not.
pub open spec fn summary_of(report: ReportView) -> SummaryView {
    SummaryView {
        path: report.path,
        total_size: report.total_size,
        item_count: report.entries.len(),
        file_count: (report.entries.len() - dir_count(report.entries)) as nat,
        dir_count: dir_count(report.entries),
    }
}

/// Sums a report up.
pub fn summarize(report: &Report) -> (summary: Summary)
    ensures
        summary@ == summary_of(report@),
{
    let ghost views = entry_views(report.entries@);
    let mut file_count: usize = 0;
    let mut dir_count: usize = 0;
    let mut i: usize = 0;
    while i < report.entries.len()
        invariant
            i <= report.entries.len(),
            views == entry_views(report.entries@),
            dir_count == self::dir_count(views.take(i as int)),
            file_count + dir_count == i,
        decreases report.entries.len() - i,
    {
        assert(views.take(i + 1).drop_last() =~= views.take(i as int));
        if report.entries[i].is_dir {
            dir_count += 1;
        } else {
            file_count += 1;
        }
        i += 1;
    }
    assert(views.take(i as int) =~= views);
    Summary {
        path: report.path.clone(),
        total_size: report.total_size,
        item_count: report.entries.len(),
        file_count,
        dir_count,
    }
}

} // verus!
