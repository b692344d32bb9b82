use yp::ansi::strip_ansi_codes;
use yp::columns::{cell_width, column_widths};
use yp::layout::{
    get_terminal_width, max_size, pad_width, text_layout, text_row, text_rows, width_for, Layout,
    Row,
};
use yp::report::{summarize, Entry, Report, ScanError, Summary};
use yp::truncate::{truncate_filename, truncate_with_widths};

fn entry(name: &str, size: u64, is_dir: bool) -> Entry {
    Entry { name: name.to_string(), size, is_dir, path: format!("root/{}", name) }
}

#[test]
fn a_name_that_fits_is_kept() {
    assert_eq!(truncate_filename("hello.txt", 9), "hello.txt");
    assert_eq!(truncate_filename("hello.txt", 40), "hello.txt");
    assert_eq!(truncate_filename("", 0), "");
    assert_eq!(truncate_filename("abc", 3), "abc");
}

#[test]
fn three_columns_or_fewer_hold_only_the_dots() {
    assert_eq!(truncate_filename("hello.txt", 3), "...");
    assert_eq!(truncate_filename("hello.txt", 2), "...");
    assert_eq!(truncate_filename("hello.txt", 0), "...");
}

#[test]
fn a_long_name_keeps_both_ends() {
    let name = "abcdefghijklmnopqrstuvwxyz";
    assert_eq!(truncate_filename(name, 15), "abcdef...uvwxyz");
    assert_eq!(truncate_filename(name, 12), "abcd...vwxyz");
    assert_eq!(truncate_filename(name, 9), "abc...xyz");
    assert_eq!(truncate_filename(name, 25), "abcdefghijk...pqrstuvwxyz");
}

#[test]
fn a_narrow_column_keeps_only_the_front() {
    let name = "abcdefghijklmnopqrstuvwxyz";
    assert_eq!(truncate_filename(name, 8), "abcde...");
    assert_eq!(truncate_filename(name, 5), "ab...");
    assert_eq!(truncate_filename(name, 4), "a...");
}

#[test]
fn wide_characters_count_two_columns() {
    let name = "目录空间查看器文件名称很长.txt";
    assert_eq!(truncate_filename(name, 15), "目录空...长.txt");
    assert_eq!(truncate_filename(name, 14), "目录...长.txt");
    assert_eq!(truncate_filename(name, 8), "目录...");
    assert_eq!(truncate_filename(name, 30), name);
    assert_eq!(truncate_filename(name, 29), "目录空间查看...名称很长.txt");
}

#[test]
fn each_character_has_its_width() {
    assert_eq!(column_widths("a目\u{7}b"), vec![1, 2, 0, 1]);
    assert_eq!(column_widths(""), Vec::<usize>::new());
    assert_eq!(column_widths("e\u{301}"), vec![1, 0]);
}

#[test]
fn a_character_without_a_width_takes_no_column() {
    assert_eq!(cell_width(None), 0);
    assert_eq!(cell_width(Some(0)), 0);
    assert_eq!(cell_width(Some(2)), 2);
    assert_eq!(cell_width(Some(usize::MAX)), usize::MAX);
}

#[test]
fn given_widths_decide_the_cut() {
    let name = "abcdefgh";
    let even = [1usize; 8];
    assert_eq!(truncate_with_widths(name, &even, 8, 8), "abcdefgh");
    assert_eq!(truncate_with_widths(name, &even, 8, 7), "abcd...");
    assert_eq!(truncate_with_widths(name, &even, 20, 9), "abc...fgh");
    let wide = [2usize; 8];
    assert_eq!(truncate_with_widths(name, &wide, 16, 9), "a...h");
    assert_eq!(truncate_with_widths(name, &wide, 16, 10), "a...gh");
    let huge = [usize::MAX; 8];
    assert_eq!(truncate_with_widths(name, &huge, usize::MAX, 20), "...");
}

#[test]
fn the_ends_overlap_where_the_whole_is_wider_than_its_parts() {
    let name = "abcdefgh";
    let widths = [1usize, 1, 0, 0, 0, 0, 1, 1];
    assert_eq!(truncate_with_widths(name, &widths, 20, 9), "abcdefg...bcdefgh");
    let none = [0usize; 8];
    assert_eq!(truncate_with_widths(name, &none, 20, 9), "abcdefgh...");
}

#[test]
fn colour_codes_are_removed() {
    assert_eq!(strip_ansi_codes("\x1b[31mred\x1b[0m plain"), "red plain");
    assert_eq!(strip_ansi_codes("plain"), "plain");
    assert_eq!(strip_ansi_codes(""), "");
    assert_eq!(strip_ansi_codes("\x1b[1;34m目录\x1b[0m"), "目录");
}

#[test]
fn a_code_ends_at_the_first_m_and_not_before() {
    assert_eq!(strip_ansi_codes("ab\x1b[31"), "ab");
    assert_eq!(strip_ansi_codes("mm"), "mm");
    assert_eq!(strip_ansi_codes("\x1b[\x1b[1mX"), "X");
    assert_eq!(strip_ansi_codes("\x1bmmm"), "mm");
    assert_eq!(strip_ansi_codes("a\x1bxyz m b"), "a b");
}

#[test]
fn the_display_width_is_held_between_60_and_160() {
    assert_eq!(width_for(None), 100);
    assert_eq!(width_for(Some(1)), 60);
    assert_eq!(width_for(Some(59)), 60);
    assert_eq!(width_for(Some(60)), 60);
    assert_eq!(width_for(Some(80)), 80);
    assert_eq!(width_for(Some(160)), 160);
    assert_eq!(width_for(Some(161)), 160);
    assert_eq!(width_for(Some(u16::MAX)), 160);
    let here = get_terminal_width();
    assert!((60..=160).contains(&here));
}

#[test]
fn the_layout_shares_the_width_out() {
    assert_eq!(
        text_layout(100, true),
        Layout { filename_width: 39, chart_width: 42, actual_width: 100 }
    );
    assert_eq!(
        text_layout(100, false),
        Layout { filename_width: 80, chart_width: 0, actual_width: 99 }
    );
    assert_eq!(
        text_layout(60, false),
        Layout { filename_width: 41, chart_width: 0, actual_width: 60 }
    );
    assert_eq!(
        text_layout(10, true),
        Layout { filename_width: 20, chart_width: 42, actual_width: 81 }
    );
    assert_eq!(
        text_layout(0, false),
        Layout { filename_width: 30, chart_width: 0, actual_width: 49 }
    );
    assert_eq!(
        text_layout(usize::MAX, true),
        Layout { filename_width: 50, chart_width: 42, actual_width: 111 }
    );
    assert_eq!(
        text_layout(160, true),
        Layout { filename_width: 50, chart_width: 42, actual_width: 111 }
    );
}

#[test]
fn the_largest_size_scales_the_chart() {
    assert_eq!(max_size(&vec![]), 1);
    assert_eq!(max_size(&vec![entry("a", 0, false)]), 0);
    assert_eq!(
        max_size(&vec![entry("a", 3, false), entry("b", 9, true), entry("c", 4, false)]),
        9
    );
    assert_eq!(max_size(&vec![entry("a", u64::MAX, false), entry("b", 1, false)]), u64::MAX);
}

#[test]
fn a_row_holds_the_cut_name_and_its_padding() {
    assert_eq!(
        text_row(&entry("a.txt", 10, false), 20),
        Row { name: "a.txt".to_string(), padding: 15, size: 10, is_dir: false }
    );
    assert_eq!(
        text_row(&entry("abcdefghijklmnopqrstuvwxyz", 7, true), 15),
        Row { name: "abcdef...uvwxyz".to_string(), padding: 0, size: 7, is_dir: true }
    );
    assert_eq!(
        text_row(&entry("目录空间查看器文件名称很长.txt", 7, true), 14),
        Row { name: "目录...长.txt".to_string(), padding: 1, size: 7, is_dir: true }
    );
    assert_eq!(
        text_row(&entry("目录", 1, true), 20),
        Row { name: "目录".to_string(), padding: 16, size: 1, is_dir: true }
    );
}

#[test]
fn padding_fills_the_column_and_is_never_negative() {
    assert_eq!(pad_width(20, 5), 15);
    assert_eq!(pad_width(20, 20), 0);
    assert_eq!(pad_width(20, 21), 0);
    assert_eq!(pad_width(0, usize::MAX), 0);
    assert_eq!(pad_width(usize::MAX, 0), usize::MAX);
}

#[test]
fn rows_follow_the_entries() {
    let entries = vec![entry("a.txt", 10, false), entry("sub", 20, true)];
    assert_eq!(
        text_rows(&entries, 30),
        vec![
            Row { name: "a.txt".to_string(), padding: 25, size: 10, is_dir: false },
            Row { name: "sub".to_string(), padding: 27, size: 20, is_dir: true },
        ]
    );
    assert_eq!(text_rows(&vec![], 30), vec![]);
}

#[test]
fn a_summary_counts_files_and_directories() {
    let report = Report {
        total_size: 30,
        entries: vec![entry("a.txt", 10, false), entry("b.txt", 20, false), entry("sub", 20, true)],
        path: "root".to_string(),
    };
    assert_eq!(
        summarize(&report),
        Summary {
            path: "root".to_string(),
            total_size: 30,
            item_count: 3,
            file_count: 2,
            dir_count: 1
        }
    );
    let empty = Report { total_size: 0, entries: vec![], path: ".".to_string() };
    assert_eq!(
        summarize(&empty),
        Summary { path: ".".to_string(), total_size: 0, item_count: 0, file_count: 0, dir_count: 0 }
    );
}

#[test]
fn a_missing_root_is_named_in_the_message() {
    let error = ScanError::NotFound("/no/such/dir".to_string());
    assert_eq!(error.message(), "路径不存在: /no/such/dir");
}
