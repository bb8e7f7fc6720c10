use std::path::PathBuf;

use dush::bar::render_bar;
use dush::color::{ansi_color, palette_index, pretty_use_color};
use dush::delimited::{render_delimited, table_header, table_row};
use dush::report::{
    entry_limit, level_count, render_empty, render_report, render_table, render_text,
    render_text_lines, render_warning_lines, render_warnings, BAR_WIDTH,
};
use dush::reporter::{truncate_for_display, ProgressReporter};
use dush::rows::{visible_len, CollectStep, RenderRow, RowCollector};
use dush::scan::{Scan, ScanStep};
use dush::text::{push_left_aligned, push_repeated, push_right_aligned, to_decimal, widest};
use dush::{Analysis, AnalysisError, Entry, Progress, WalkFault};

fn analysis(root: &str, children: &[(&str, bool, u64)], faults: &Vec<WalkFault>) -> Analysis {
    let root = PathBuf::from(root);
    let paths: Vec<PathBuf> = children.iter().map(|c| root.join(c.0)).collect();
    let mut scan = Scan::new(root, paths);
    let mut at = 0;
    loop {
        match scan.next() {
            ScanStep::Stat(pending) => {
                let none = Vec::new();
                let faults = if at == 0 { faults } else { &none };
                scan = pending.found(children[at].1).0.sized(children[at].2, faults).0;
                at += 1;
            }
            ScanStep::Done(finished, _) => return finished.into_analysis(),
        }
    }
}

fn plain(root: &str, children: &[(&str, bool, u64)]) -> Analysis {
    analysis(root, children, &Vec::new())
}

fn collect(
    top: &Analysis,
    limit: Option<usize>,
    levels: usize,
    mut reply: impl FnMut(&str) -> Option<Analysis>,
) -> Vec<RenderRow> {
    let mut collector = RowCollector::new(top, limit, levels);
    loop {
        match collector.collect_rows() {
            CollectStep::Analyze(pending) => {
                let path = pending.path().display().to_string();
                collector = pending.supply(reply(&path));
            }
            CollectStep::Done(rows) => return rows,
        }
    }
}

fn text(bytes: &[Vec<u8>]) -> String {
    bytes.iter().map(|b| String::from_utf8(b.clone()).expect("UTF-8")).collect()
}

// ----- Bars ------------------------------------------------------------------

#[test]
fn bar_full_when_value_equals_total() {
    let bar = render_bar(100, 100, 10);
    assert_eq!(bar, "▏██████████▕");
}

#[test]
fn bar_empty_when_value_is_zero() {
    let bar = render_bar(0, 100, 5);
    assert_eq!(bar, "▏     ▕");
}

#[test]
fn bar_half_when_value_is_half() {
    let bar = render_bar(50, 100, 4);
    // 50% of 4 cells = 2 full cells, then padding between rules.
    assert_eq!(bar, "▏██  ▕");
}

#[test]
fn bar_uses_eighth_block_for_fractional_cell() {
    // 5/16 of width 4 = 1.25 cells = 1 full + 2/8 partial → '▎'.
    let bar = render_bar(5, 16, 4);
    assert_eq!(bar, "▏█▎  ▕");
}

#[test]
fn bar_of_nothing_is_blank() {
    assert_eq!(render_bar(0, 0, 3), "▏   ▕");
    assert_eq!(render_bar(7, 0, 3), "▏   ▕");
    assert_eq!(render_bar(1, 2, 0), "▏▕");
}

#[test]
fn bar_shows_every_eighth() {
    let cells: Vec<String> = (0..=8).map(|v| render_bar(v, 8, 1)).collect();
    assert_eq!(
        cells,
        vec!["▏ ▕", "▏▏▕", "▏▎▕", "▏▍▕", "▏▌▕", "▏▋▕", "▏▊▕", "▏▉▕", "▏█▕"]
    );
}

#[test]
fn bar_is_full_from_the_whole_on_only() {
    assert_eq!(render_bar(99, 100, 10), "▏█████████▉▕");
    assert_eq!(render_bar(100, 100, 10), "▏██████████▕");
    assert_eq!(render_bar(101, 100, 10), "▏██████████▕");
}

#[test]
fn bar_never_outgrows_its_width() {
    assert_eq!(render_bar(300, 100, 4), "▏████▕");
    assert_eq!(render_bar(u64::MAX, u64::MAX, 24), format!("▏{}▕", "█".repeat(24)));
}

// ----- Truncation and progress -----------------------------------------------

#[test]
fn truncate_short_string_unchanged() {
    assert_eq!(truncate_for_display("foo", 10), "foo");
}

#[test]
fn truncate_long_string_with_ellipsis() {
    // Result must be exactly `max` chars: 4 prefix + 1 ellipsis = 5.
    let out = truncate_for_display("abcdefghij", 5);
    assert_eq!(out.chars().count(), 5);
    assert!(out.ends_with('…'));
    assert!(out.starts_with("abcd"));
}

#[test]
fn truncate_counts_characters() {
    assert_eq!(truncate_for_display("äöüß", 4), "äöüß");
    assert_eq!(truncate_for_display("äöüß", 3), "äö…");
    assert_eq!(truncate_for_display("ab", 1), "…");
    assert_eq!(truncate_for_display("ab", 0), "");
    assert_eq!(truncate_for_display("", 0), "");
}

#[test]
fn reporter_draws_and_wipes() {
    let mut reporter = ProgressReporter::new(true);
    let first = reporter.handle(Progress::Started { index: 1, total: 12, name: "alpha" });
    assert_eq!(first, "\r⠋ analyzing [1/12] alpha");
    let between = reporter.handle(Progress::Finished {
        index: 1,
        total: 12,
        name: "alpha",
        size_in_bytes: 5,
    });
    assert_eq!(between, "");
    // Three characters shorter, so three spaces cover what was there.
    let second = reporter.handle(Progress::Started { index: 2, total: 12, name: "be" });
    assert_eq!(second, "\r⠙ analyzing [2/12] be   ");
    let width = "⠙ analyzing [2/12] be".chars().count();
    let end = reporter.handle(Progress::Done);
    assert_eq!(end, format!("\r{}\r", " ".repeat(width)));
    assert_eq!(reporter.handle(Progress::Done), "");
}

#[test]
fn reporter_spins_through_ten_glyphs() {
    let mut reporter = ProgressReporter::new(true);
    let mut glyphs = String::new();
    for index in 1..=11 {
        let line = reporter.handle(Progress::Started { index, total: 11, name: "x" });
        glyphs.push(line.chars().nth(1).expect("a glyph"));
    }
    assert_eq!(glyphs, "⠋⠙⠹⠸⠼⠴⠦⠧⠇⠏⠋");
}

#[test]
fn reporter_cuts_long_names() {
    let mut reporter = ProgressReporter::new(true);
    let name = "n".repeat(61);
    let line = reporter.handle(Progress::Started { index: 1, total: 1, name: &name });
    assert_eq!(line, format!("\r⠋ analyzing [1/1] {}…", "n".repeat(59)));
}

#[test]
fn disabled_reporter_is_silent() {
    let mut reporter = ProgressReporter::new(false);
    assert_eq!(reporter.handle(Progress::Started { index: 1, total: 1, name: "x" }), "");
    assert_eq!(reporter.handle(Progress::Done), "");
}

// ----- Colors ----------------------------------------------------------------

#[test]
fn colors_cycle_by_depth() {
    let codes = [
        "\x1b[38;2;53;132;228m",
        "\x1b[38;2;51;209;122m",
        "\x1b[38;2;246;211;45m",
        "\x1b[38;2;255;120;0m",
        "\x1b[38;2;224;27;36m",
        "\x1b[38;2;145;65;172m",
        "\x1b[38;2;181;131;90m",
    ];
    for depth in 0..21 {
        assert_eq!(ansi_color(depth, true), (codes[depth % 7], "\x1b[0m"));
        assert_eq!(ansi_color(depth, false), ("", ""));
    }
}

#[test]
fn palette_places() {
    assert_eq!(palette_index(-5), 0);
    assert_eq!(palette_index(0), 0);
    assert_eq!(palette_index(6), 6);
    assert_eq!(palette_index(7), 0);
    assert_eq!(palette_index(i32::MAX), i32::MAX as usize % 7);
}

#[test]
fn color_needs_a_terminal_and_no_veto() {
    assert!(pretty_use_color(false, true));
    assert!(!pretty_use_color(true, true));
    assert!(!pretty_use_color(false, false));
    assert!(!pretty_use_color(true, false));
}

// ----- Text helpers ----------------------------------------------------------

#[test]
fn numbers_and_alignment() {
    assert_eq!(to_decimal(0), "0");
    assert_eq!(to_decimal(907), "907");
    assert_eq!(to_decimal(u64::MAX), "18446744073709551615");
    let mut out = String::from("|");
    push_right_aligned(&mut out, "ab", 4);
    push_repeated(&mut out, '|', 1);
    push_left_aligned(&mut out, "ü", 3);
    push_repeated(&mut out, '|', 1);
    push_right_aligned(&mut out, "long", 2);
    assert_eq!(out, "|  ab|ü  |long");
    assert_eq!(widest(&vec!["a".to_string(), "bcd".to_string(), String::new()]), 3);
    assert_eq!(widest(&Vec::new()), 0);
}

// ----- Rows ------------------------------------------------------------------

#[test]
fn limits() {
    assert_eq!(entry_limit(true, 10), None);
    assert_eq!(entry_limit(false, 10), Some(10));
    assert_eq!(level_count(0), 1);
    assert_eq!(level_count(1), 1);
    assert_eq!(level_count(4), 4);
    assert_eq!(visible_len(5, None), 5);
    assert_eq!(visible_len(5, Some(3)), 3);
    assert_eq!(visible_len(5, Some(9)), 5);
}

#[test]
fn one_level_lists_the_largest() {
    let top = plain("/r", &[("a", true, 1), ("b", false, 3), ("c", true, 2)]);
    let rows = collect(&top, Some(2), 1, |_| unreachable!());
    let shown: Vec<(&str, u64, u64, bool, usize, &str)> = rows
        .iter()
        .map(|r| {
            (
                r.name.as_str(),
                r.size_in_bytes,
                r.level_total,
                r.is_dir,
                r.depth,
                r.line_prefix.as_str(),
            )
        })
        .collect();
    assert_eq!(shown, vec![("b", 3, 6, false, 0, ""), ("c", 2, 6, true, 0, "")]);
}

#[test]
fn levels_nest_with_connectors() {
    let top = plain("/r", &[("x", true, 9), ("y", true, 8), ("f", false, 7)]);
    let mut asked: Vec<String> = Vec::new();
    let rows = collect(&top, None, 3, |path| {
        asked.push(path.to_string());
        match path {
            "/r/x" => Some(plain("/r/x", &[("p", true, 5), ("q", false, 4)])),
            "/r/x/p" => Some(plain("/r/x/p", &[("deep", true, 5)])),
            _ => None,
        }
    });
    assert_eq!(asked, vec!["/r/x", "/r/x/p", "/r/y"]);
    let shown: Vec<String> =
        rows.iter().map(|r| format!("{}{} {}/{}", r.line_prefix, r.name, r.depth, r.level_total)).collect();
    assert_eq!(
        shown,
        vec!["x 0/24", "├─ p 1/9", "│  └─ deep 2/5", "└─ q 1/9", "y 0/24", "f 0/24"]
    );
}

#[test]
fn failed_directory_reads_as_an_empty_one() {
    let top = plain("/r", &[("x", true, 9), ("y", true, 8), ("f", false, 7)]);
    let shown = |x: fn() -> Option<Analysis>| -> (Vec<String>, Vec<String>) {
        let mut asked: Vec<String> = Vec::new();
        let rows = collect(&top, None, 2, |path| {
            asked.push(path.to_string());
            match path {
                "/r/x" => x(),
                _ => Some(plain("/r/y", &[("z", false, 8)])),
            }
        });
        (rows.iter().map(|r| format!("{}{}", r.line_prefix, r.name)).collect(), asked)
    };
    let failed = shown(|| None);
    assert_eq!(failed.0, vec!["x", "y", "└─ z", "f"]);
    assert_eq!(failed.1, vec!["/r/x", "/r/y"]);
    assert_eq!(shown(|| Some(plain("/r/x", &[]))), failed);
}

#[test]
fn directories_are_asked_for_by_their_own_path() {
    let top = plain("/r", &[("small", true, 1), ("big", true, 9), ("file", false, 5)]);
    let mut asked: Vec<String> = Vec::new();
    collect(&top, Some(3), 2, |path| {
        asked.push(path.to_string());
        None
    });
    assert_eq!(asked, vec!["/r/big", "/r/small"]);
    let mut cut: Vec<String> = Vec::new();
    collect(&top, Some(1), 2, |path| {
        cut.push(path.to_string());
        None
    });
    assert_eq!(cut, vec!["/r/big"]);
}

#[test]
fn last_child_leaves_no_rule_behind() {
    let top = plain("/r", &[("x", true, 9)]);
    let rows = collect(&top, None, 4, |path| match path {
        "/r/x" => Some(plain("/r/x", &[("p", true, 9)])),
        "/r/x/p" => Some(plain("/r/x/p", &[("q", true, 9)])),
        "/r/x/p/q" => Some(plain("/r/x/p/q", &[("z", false, 9)])),
        _ => None,
    });
    let shown: Vec<String> = rows.iter().map(|r| format!("{}{}", r.line_prefix, r.name)).collect();
    assert_eq!(shown, vec!["x", "└─ p", "   └─ q", "      └─ z"]);
}

// ----- The tree report -------------------------------------------------------

#[test]
fn report_lines() {
    let top = plain("/r", &[("big", true, 3072), ("small.txt", false, 1024)]);
    let rows = collect(&top, Some(10), 1, |_| None);
    let pcts = vec!["75.0".to_string(), "25.0".to_string()];
    let report = render_report(&top, &rows, &pcts, Some(10), 1, false);
    assert_eq!(BAR_WIDTH, 24);
    assert_eq!(
        report.lines,
        vec![
            format!("   size   share{}pct   name", " ".repeat(27)),
            format!("▸ 3 KiB   ▏{}{}▕    75.0%   big/", "█".repeat(18), " ".repeat(6)),
            format!("· 1 KiB   ▏{}{}▕    25.0%   small.txt", "█".repeat(6), " ".repeat(18)),
            "  ━━━━━".to_string(),
            "Σ 4 KiB   total".to_string(),
        ]
    );
    assert!(report.warnings.is_empty());
}

#[test]
fn report_in_color_and_cut() {
    let top = plain("/r", &[("d", true, 1024), ("e", false, 0)]);
    let rows = collect(&top, Some(1), 2, |_| Some(plain("/r/d", &[("k", false, 1024)])));
    let pcts = vec!["100.0".to_string(), "100.0".to_string()];
    let report = render_report(&top, &rows, &pcts, Some(1), 2, true);
    let full = "█".repeat(24);
    let (b, g, r) = ("\x1b[38;2;53;132;228m", "\x1b[38;2;51;209;122m", "\x1b[0m");
    assert_eq!(report.lines[1], format!("{b}▸{r} 1 KiB   {b}▏{full}▕{r}   100.0%   {b}{r}d/"));
    assert_eq!(report.lines[2], format!("{g} {r} 1 KiB   {g}▏{full}▕{r}   100.0%   {g}└─ {r}k"));
    assert_eq!(report.lines[4], "Σ 1 KiB   total (root)");
}

#[test]
fn total_is_wider_than_the_rows() {
    let row = RenderRow {
        size_in_bytes: 1,
        level_total: 1,
        is_dir: false,
        line_prefix: String::new(),
        name: "n".to_string(),
        depth: 0,
    };
    let lines = render_table(
        &vec![row],
        &vec!["1 B".to_string()],
        &vec!["5.5".to_string()],
        &"1000 B".to_string(),
        "total",
        false,
    );
    assert_eq!(lines[0], format!("  size   share{}pct   name", " ".repeat(27)));
    assert_eq!(lines[1], format!("· 1 B   ▏{}▕     5.5%   n", "█".repeat(24)));
    assert_eq!(lines[2], "  ━━━━━━");
    assert_eq!(lines[3], "Σ 1000 B   total");
}

#[test]
fn empty_report() {
    let top = plain("/some/where", &[]);
    let report = render_report(&top, &Vec::new(), &Vec::new(), Some(10), 1, true);
    assert_eq!(report.lines, vec!["(empty: /some/where contains no entries)"]);
    assert!(report.warnings.is_empty());
    assert_eq!(render_empty("x"), "(empty: x contains no entries)");
}

#[test]
fn limit_of_zero_reads_as_empty_and_hides_warnings() {
    let faults = vec![WalkFault::CouldNotReadDir(PathBuf::from("/r/a"))];
    let top = analysis("/r", &[("a", true, 1)], &faults);
    let rows = collect(&top, Some(0), 1, |_| None);
    let report = render_report(&top, &rows, &Vec::new(), Some(0), 1, false);
    assert_eq!(report.lines, vec!["(empty: /r contains no entries)"]);
    assert!(report.warnings.is_empty());
}

#[test]
fn warnings_name_the_first_paths() {
    let faults: Vec<WalkFault> =
        (0..12).map(|i| WalkFault::CouldNotReadDir(PathBuf::from(format!("/r/a/{i}")))).collect();
    let top = analysis("/r", &[("a", true, 1)], &faults);
    let lines = render_warnings(&top);
    assert_eq!(lines.len(), 13);
    assert_eq!(lines[0], "");
    assert_eq!(
        lines[1],
        "⚠  12 path(s) could not be fully read; reported sizes may be undercounts:"
    );
    assert_eq!(lines[2], "   • could not read directory: /r/a/0");
    assert_eq!(lines[11], "   • could not read directory: /r/a/9");
    assert_eq!(lines[12], "   … and 2 more");
    assert!(render_warnings(&plain("/r", &[("a", true, 1)])).is_empty());
}

#[test]
fn ten_warnings_need_no_rest() {
    let errors: Vec<AnalysisError> =
        (0..10).map(|i| AnalysisError::NoMetadata(PathBuf::from(format!("/{i}")))).collect();
    let paths: Vec<String> = (0..10).map(|i| format!("/{i}")).collect();
    let lines = render_warning_lines(&errors, &paths);
    assert_eq!(lines.len(), 12);
    assert_eq!(lines[11], "   • could not stat: /9");
}

// ----- Plain text ------------------------------------------------------------

#[test]
fn plain_listing_has_three_fields() {
    let top = plain("/r", &[("docs", true, 50_000), ("a.txt", false, 1_000), ("b", false, 10)]);
    assert_eq!(
        render_text(&top, Some(2)),
        vec!["50000  48.83KiB  docs/", " 1000     1000B  a.txt"]
    );
    assert_eq!(
        render_text(&top, None),
        vec!["50000  48.83KiB  docs/", " 1000     1000B  a.txt", "   10       10B  b"]
    );
    assert!(render_text(&plain("/r", &[]), None).is_empty());
}

#[test]
fn plain_lines_split_into_fields() {
    let top = plain("/r", &[("docs", true, 974 * 1024 * 1024), ("b", false, 1)]);
    let lines = render_text(&top, None);
    let first: Vec<&str> = lines[0].split_whitespace().collect();
    assert_eq!(first, vec!["1021313024", "974MiB", "docs/"]);
    let second: Vec<&str> = lines[1].split_whitespace().collect();
    assert_eq!(second, vec!["1", "1B", "b"]);
    // Blanks in a name do not touch the first two fields.
    let blanks = render_text(&plain("/r", &[(" my docs ", true, 2048), ("x", false, 1)]), None);
    assert_eq!(blanks[0], "2048  2KiB   my docs /");
    let fields: Vec<&str> = blanks[0].split_whitespace().collect();
    assert_eq!(fields[..2], ["2048", "2KiB"]);
}

#[test]
fn plain_lines_follow_the_given_sizes() {
    let entries = vec![Entry {
        path: PathBuf::from("/r/n"),
        name: "n".to_string(),
        size_in_bytes: 5,
        is_dir: true,
    }];
    assert_eq!(render_text_lines(&entries, &vec!["five".to_string()]), vec!["5  five  n/"]);
    assert!(render_text_lines(&entries, &Vec::new()).is_empty());
}

// ----- Tables ----------------------------------------------------------------

#[test]
fn csv_table() {
    let top = plain("/r", &[("a,b", true, 1536), ("say \"hi\"", false, 512)]);
    let pcts = vec!["75.000".to_string(), "25.000".to_string()];
    let records = render_delimited(&top, b',', &pcts);
    assert_eq!(
        text(&records),
        "rank,name,path,size_in_bytes,size_human,percentage,is_dir\n\
         1,\"a,b\",\"/r/a,b\",1536,1.50 KiB,75.000,true\n\
         2,\"say \"\"hi\"\"\",\"/r/say \"\"hi\"\"\",512,512 B,25.000,false\n"
    );
}

#[test]
fn tsv_table() {
    let top = plain("/r", &[("a,b", false, 1), ("t\tb\nc", false, 0)]);
    let pcts = vec!["100.000".to_string(), "0.000".to_string()];
    let records = render_delimited(&top, b'\t', &pcts);
    assert_eq!(
        text(&records),
        "rank\tname\tpath\tsize_in_bytes\tsize_human\tpercentage\tis_dir\n\
         1\ta,b\t/r/a,b\t1\t1 B\t100.000\tfalse\n\
         2\t\"t\tb\nc\"\t\"/r/t\tb\nc\"\t0\t0 B\t0.000\tfalse\n"
    );
}

#[test]
fn tables_read_back() {
    let names = ["plain", "comma, quote \" and\r\nline", "\"\"", "ünï"];
    let children: Vec<(&str, bool, u64)> = names.iter().map(|n| (*n, false, 4)).collect();
    let top = plain("/r", &children);
    let pcts: Vec<String> = names.iter().map(|_| "25.000".to_string()).collect();
    let bytes: Vec<u8> = render_delimited(&top, b',', &pcts).concat();
    let mut reader = csv::Reader::from_reader(bytes.as_slice());
    let read: Vec<String> =
        reader.records().map(|r| r.expect("a record").get(1).expect("a name").to_string()).collect();
    assert_eq!(read, names);
}

#[test]
fn table_fields() {
    assert_eq!(
        table_header(),
        vec!["rank", "name", "path", "size_in_bytes", "size_human", "percentage", "is_dir"]
    );
    let entry = Entry {
        path: PathBuf::from("/r/n"),
        name: "n".to_string(),
        size_in_bytes: 2048,
        is_dir: true,
    };
    let row =
        table_row(3, &entry, "/r/n".to_string(), "2 KiB".to_string(), "1.000".to_string());
    assert_eq!(row, vec!["3", "n", "/r/n", "2048", "2 KiB", "1.000", "true"]);
}

#[test]
fn empty_table_is_a_header() {
    let records = render_delimited(&plain("/r", &[]), b',', &Vec::new());
    assert_eq!(records.len(), 1);
}
