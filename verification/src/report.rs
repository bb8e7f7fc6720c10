//! What the reports say, line by line.
//!
//! The numbers of the percent columns come from the caller as texts; all else
//! is put together here.
use vstd::prelude::*;

use crate::bar::render_bar;
#[allow(unused_imports)]
use crate::bar::{
    bar_text, law_bar_is_empty_for_nothing, law_bar_is_full_for_the_whole, law_cells_show_the_share,
};
use crate::color::ansi_color;
#[allow(unused_imports)]
use crate::color::{color_close, color_open};
use crate::model::{Analysis, AnalysisError, Entry};
use crate::outside::{display_path, format_size};
#[allow(unused_imports)]
use crate::outside::{human_size, path_text};
use crate::rows::{visible_len, RenderRow};
#[allow(unused_imports)]
use crate::rows::visible_count;
use crate::text::{push_left_aligned, push_repeated, push_right_aligned, to_decimal, widest};
#[allow(unused_imports)]
use crate::text::{
    byte_len, column_width, decimal, fields, fields_so_far, fill, is_blank, is_word, left_aligned,
    lemma_decimal_is_word, lemma_fields_kept, lemma_fields_spaces, lemma_fields_word, line_views, repeated,
    right_aligned, stands_at,
};

verus! {

/// Width of the bar column, in cells. It fits into a terminal of 80 columns
/// beside the size and percent columns.
pub const BAR_WIDTH: usize = 24;

/// How many inaccessible paths the warnings list one by one.
pub const MAX_LISTED_ERRORS: usize = 10;

/// The limit on the entries of a level: none where everything is asked for.
pub fn entry_limit(all: bool, top: usize) -> (limit: Option<usize>)
    ensures
        limit == if all {
            None
        } else {
            Some(top)
        },
{
    if all {
        None
    } else {
        Some(top)
    }
}

/// The number of levels to show: at least one.
pub fn level_count(levels: usize) -> (count: usize)
    ensures
        count == if levels == 0 {
            1
        } else {
            levels
        },
{
    if levels == 0 {
        1
    } else {
        levels
    }
}

/// A directory's name is shown with a slash behind it.
pub open spec fn suffix(is_dir: bool) -> Seq<char> {
    if is_dir {
        "/"@
    } else {
        ""@
    }
}

fn suffix_text(is_dir: bool) -> (text: &'static str)
    ensures
        text@ == suffix(is_dir),
{
    if is_dir {
        "/"
    } else {
        ""
    }
}

/// The marker in front of a row. Nested rows have none: their place in the
/// tree tells them apart.
pub open spec fn marker(depth: nat, is_dir: bool) -> char {
    if depth > 0 {
        ' '
    } else if is_dir {
        '▸'
    } else {
        '·'
    }
}

// ---------------------------------------------------------------------------
// The tree report
// ---------------------------------------------------------------------------

/// The line above the rows, with its labels over their columns. The bar column
/// is two characters wider than the bar, for the rules around it.
pub open spec fn header_line(width: nat) -> Seq<char> {
    "  "@ + right_aligned("size"@, width) + "   "@ + left_aligned("share"@, BAR_WIDTH as nat + 2)
        + "   "@ + right_aligned("  pct"@, 6) + "   name"@
}

/// The line for a row: marker, size, bar and percentage, and the name in its
/// place in the tree. Marker, bar and tree lines take the color of the level.
pub open spec fn row_line(
    row: RenderRow,
    size: Seq<char>,
    pct: Seq<char>,
    width: nat,
    color: bool,
) -> Seq<char> {
    let c0 = color_open(row.depth as nat, color);
    let c1 = color_close(color);
    c0 + seq![marker(row.depth as nat, row.is_dir)] + c1 + " "@ + right_aligned(size, width)
        + "   "@ + c0 + bar_text(row.size_in_bytes, row.level_total, BAR_WIDTH) + c1 + "   "@
        + right_aligned(pct, 5) + "%   "@ + c0 + row.line_prefix@ + c1 + row.name@ + suffix(
        row.is_dir,
    )
}

/// The rule between the rows and the total.
pub open spec fn rule_line(width: nat) -> Seq<char> {
    "  "@ + repeated('━', width)
}

/// The line with the total of the root.
pub open spec fn total_line(total: Seq<char>, label: Seq<char>, width: nat) -> Seq<char> {
    "Σ "@ + right_aligned(total, width) + "   "@ + label
}

/// The total is marked as the root's where not all of its entries are shown,
/// or others beside them.
pub open spec fn total_label(entry_count: nat, top: Option<usize>, levels: usize) -> Seq<char> {
    if visible_count(entry_count, top) < entry_count || levels > 1 {
        "total (root)"@
    } else {
        "total"@
    }
}

/// The line for a directory without entries.
pub open spec fn empty_line(root: Seq<char>) -> Seq<char> {
    "(empty: "@ + root + " contains no entries)"@
}

/// The larger of two widths.
pub open spec fn wider(a: nat, b: nat) -> nat {
    if a >= b {
        a
    } else {
        b
    }
}

/// The lines of the rows, given the texts of their size and percent columns.
pub open spec fn row_lines(
    rows: Seq<RenderRow>,
    sizes: Seq<Seq<char>>,
    pcts: Seq<Seq<char>>,
    width: nat,
    color: bool,
) -> Seq<Seq<char>> {
    Seq::new(rows.len(), |i: int| row_line(rows[i], sizes[i], pcts[i], width, color))
}

/// The lines of a report with rows.
pub open spec fn table_lines(
    rows: Seq<RenderRow>,
    sizes: Seq<Seq<char>>,
    pcts: Seq<Seq<char>>,
    total: Seq<char>,
    label: Seq<char>,
    color: bool,
) -> Seq<Seq<char>> {
    let width = column_width(sizes);
    let total_width = wider(width, byte_len(total));
    seq![header_line(width)] + row_lines(rows, sizes, pcts, width, color) + seq![
        rule_line(total_width),
        total_line(total, label, total_width),
    ]
}

fn render_header(width: usize) -> (line: String)
    ensures
        line@ == header_line(width as nat),
{
    let mut line = "  ".to_string();
    push_right_aligned(&mut line, "size", width);
    line.append("   ");
    push_left_aligned(&mut line, "share", BAR_WIDTH + 2);
    line.append("   ");
    push_right_aligned(&mut line, "  pct", 6);
    line.append("   name");
    line
}

fn render_row(row: &RenderRow, size: &str, pct: &str, width: usize, color: bool) -> (line: String)
    ensures
        line@ == row_line(*row, size@, pct@, width as nat, color),
{
    let (c0, c1) = ansi_color(row.depth, color);
    let mut line = c0.to_string();
    line.push(
        if row.depth > 0 {
            ' '
        } else if row.is_dir {
            '▸'
        } else {
            '·'
        },
    );
    line.append(c1);
    line.append(" ");
    push_right_aligned(&mut line, size, width);
    line.append("   ");
    line.append(c0);
    line.append(render_bar(row.size_in_bytes, row.level_total, BAR_WIDTH).as_str());
    line.append(c1);
    line.append("   ");
    push_right_aligned(&mut line, pct, 5);
    line.append("%   ");
    line.append(c0);
    line.append(row.line_prefix.as_str());
    line.append(c1);
    line.append(row.name.as_str());
    line.append(suffix_text(row.is_dir));
    assert(line@ =~= row_line(*row, size@, pct@, width as nat, color));
    line
}

/// Renders a report with rows, given the texts of the size and percent columns
/// and of the total.
pub fn render_table(
    rows: &Vec<RenderRow>,
    sizes: &Vec<String>,
    pcts: &Vec<String>,
    total: &String,
    label: &str,
    color: bool,
) -> (lines: Vec<String>)
    requires
        sizes@.len() == rows@.len(),
        pcts@.len() == rows@.len(),
    ensures
        line_views(lines@) == table_lines(
            rows@,
            line_views(sizes@),
            line_views(pcts@),
            total@,
            label@,
            color,
        ),
{
    let width: usize = widest(sizes);
    let mut lines: Vec<String> = Vec::new();
    lines.push(render_header(width));
    let ghost body = row_lines(
        rows@,
        line_views(sizes@),
        line_views(pcts@),
        width as nat,
        color,
    );
    let mut i: usize = 0;
    while i < rows.len()
        invariant
            i <= rows.len(),
            sizes@.len() == rows@.len(),
            pcts@.len() == rows@.len(),
            body == row_lines(
                rows@,
                line_views(sizes@),
                line_views(pcts@),
                width as nat,
                color,
            ),
            line_views(lines@) == seq![header_line(width as nat)] + body.take(i as int),
        decreases rows.len() - i,
    {
        let ghost before = lines@;
        let line = render_row(&rows[i], sizes[i].as_str(), pcts[i].as_str(), width, color);
        lines.push(line);
        i += 1;
        assert(line_views(lines@) =~= line_views(before).push(line@));
        assert(line_views(lines@) =~= seq![header_line(width as nat)] + body.take(i as int));
    }
    assert(body.take(i as int) =~= body);

    let total_len: usize = total.as_str().as_bytes().len();
    let total_width: usize = if width >= total_len {
        width
    } else {
        total_len
    };
    let mut rule = "  ".to_string();
    push_repeated(&mut rule, '━', total_width);
    let mut bottom = "Σ ".to_string();
    push_right_aligned(&mut bottom, total.as_str(), total_width);
    bottom.append("   ");
    bottom.append(label);
    let ghost before = lines@;
    lines.push(rule);
    lines.push(bottom);
    assert(line_views(lines@) =~= line_views(before).push(rule@).push(bottom@));
    assert(line_views(lines@) =~= table_lines(
        rows@,
        line_views(sizes@),
        line_views(pcts@),
        total@,
        label@,
        color,
    ));
    lines
}

/// The report on a directory: what goes to standard output, and the warnings,
/// which go to standard error.
#[derive(Debug)]
pub struct Report {
    /// The lines of the report itself.
    pub lines: Vec<String>,
    /// The lines of the warnings.
    pub warnings: Vec<String>,
}

/// The size texts of the rows.
pub open spec fn row_sizes(rows: Seq<RenderRow>) -> Seq<Seq<char>> {
    rows.map_values(|row: RenderRow| human_size(row.size_in_bytes, true))
}

/// Renders the tree report: the rows that were collected for an analysis, with
/// the texts of their percent columns. Where there are no rows a single line
/// says so, and there are no warnings either.
pub fn render_report(
    analysis: &Analysis,
    rows: &Vec<RenderRow>,
    pcts: &Vec<String>,
    top: Option<usize>,
    levels: usize,
    color: bool,
) -> (report: Report)
    requires
        pcts@.len() == rows@.len(),
    ensures
        rows@.len() == 0 ==> {
            &&& line_views(report.lines@) == seq![empty_line(path_text(analysis@.root))]
            &&& report.warnings@.len() == 0
        },
        rows@.len() > 0 ==> {
            &&& line_views(report.lines@) == table_lines(
                rows@,
                row_sizes(rows@),
                line_views(pcts@),
                human_size(analysis@.total_in_bytes as u64, true),
                total_label(analysis@.entries.len(), top, levels),
                color,
            )
            &&& line_views(report.warnings@) == warning_lines(
                analysis@.errors,
                error_paths(analysis@.errors),
            )
        },
{
    if rows.len() == 0 {
        let mut lines: Vec<String> = Vec::new();
        lines.push(render_empty(display_path(analysis.root()).as_str()));
        assert(line_views(lines@) =~= seq![empty_line(path_text(analysis@.root))]);
        return Report { lines, warnings: Vec::new() };
    }
    let mut sizes: Vec<String> = Vec::new();
    let mut i: usize = 0;
    while i < rows.len()
        invariant
            i <= rows.len(),
            line_views(sizes@) == row_sizes(rows@).take(i as int),
        decreases rows.len() - i,
    {
        let ghost before = sizes@;
        let size = format_size(rows[i].size_in_bytes, true);
        sizes.push(size);
        i += 1;
        assert(line_views(sizes@) =~= line_views(before).push(size@));
        assert(line_views(sizes@) =~= row_sizes(rows@).take(i as int));
    }
    assert(row_sizes(rows@).take(i as int) =~= row_sizes(rows@));
    assert(sizes@.len() == line_views(sizes@).len());
    let total = format_size(analysis.total_in_bytes(), true);
    let entry_count: usize = analysis.entries().len();
    let label = if visible_len(entry_count, top) < entry_count || levels > 1 {
        "total (root)"
    } else {
        "total"
    };
    let lines = render_table(rows, &sizes, pcts, &total, label, color);
    Report { lines, warnings: render_warnings(analysis) }
}

/// Renders the line for a directory without entries.
pub fn render_empty(root: &str) -> (line: String)
    ensures
        line@ == empty_line(root@),
{
    let mut line = "(empty: ".to_string();
    line.append(root);
    line.append(" contains no entries)");
    line
}

// ---------------------------------------------------------------------------
// Warnings
// ---------------------------------------------------------------------------

/// The texts of the paths that the errors are about.
pub open spec fn error_paths(errors: Seq<AnalysisError>) -> Seq<Seq<char>> {
    errors.map_values(|error: AnalysisError| path_text(error.spec_path()))
}

/// The line above the list of inaccessible paths.
pub open spec fn warning_header(count: nat) -> Seq<char> {
    "⚠  "@ + decimal(count)
        + " path(s) could not be fully read; reported sizes may be undercounts:"@
}

/// The line for one inaccessible path.
pub open spec fn warning_line(error: AnalysisError, path: Seq<char>) -> Seq<char> {
    "   • "@ + error.spec_reason() + ": "@ + path
}

/// The line that stands for the paths that are not listed.
pub open spec fn warning_rest(count: nat) -> Seq<char> {
    "   … and "@ + decimal(count) + " more"@
}

/// How many of the errors are listed one by one.
pub open spec fn listed_count(errors: nat) -> nat {
    if errors < MAX_LISTED_ERRORS {
        errors
    } else {
        MAX_LISTED_ERRORS as nat
    }
}

/// The warnings about the given errors: none where there is no error, else a
/// blank line, a summary, the first errors, and the number of the others.
pub open spec fn warning_lines(errors: Seq<AnalysisError>, paths: Seq<Seq<char>>) -> Seq<
    Seq<char>,
> {
    if errors.len() == 0 {
        Seq::empty()
    } else {
        let listed = Seq::new(
            listed_count(errors.len()),
            |i: int| warning_line(errors[i], paths[i]),
        );
        let top = seq![""@, warning_header(errors.len())] + listed;
        if errors.len() > MAX_LISTED_ERRORS {
            top.push(warning_rest((errors.len() - MAX_LISTED_ERRORS) as nat))
        } else {
            top
        }
    }
}

/// Renders the warnings about the given errors, with the texts of the paths
/// of those that are listed.
pub fn render_warning_lines(errors: &[AnalysisError], paths: &Vec<String>) -> (lines: Vec<String>)
    requires
        paths@.len() >= listed_count(errors@.len()),
    ensures
        line_views(lines@) == warning_lines(errors@, line_views(paths@)),
{
    let mut lines: Vec<String> = Vec::new();
    let count: usize = errors.len();
    if count == 0 {
        assert(line_views(lines@) =~= warning_lines(errors@, line_views(paths@)));
        return lines;
    }
    let mut header = "⚠  ".to_string();
    header.append(to_decimal(count as u64).as_str());
    header.append(" path(s) could not be fully read; reported sizes may be undercounts:");
    lines.push("".to_string());
    lines.push(header);
    let listed: usize = if count < MAX_LISTED_ERRORS {
        count
    } else {
        MAX_LISTED_ERRORS
    };
    let ghost list = Seq::new(
        listed as nat,
        |i: int| warning_line(errors@[i], line_views(paths@)[i]),
    );
    let ghost top = seq![""@, warning_header(count as nat)];
    assert(line_views(lines@) =~= top + list.take(0));
    let mut i: usize = 0;
    while i < listed
        invariant
            i <= listed <= errors@.len(),
            listed <= paths@.len(),
            list == Seq::new(
                listed as nat,
                |i: int| warning_line(errors@[i], line_views(paths@)[i]),
            ),
            line_views(lines@) == top + list.take(i as int),
        decreases listed - i,
    {
        let ghost before = lines@;
        let mut line = "   • ".to_string();
        line.append(errors[i].reason());
        line.append(": ");
        line.append(paths[i].as_str());
        lines.push(line);
        assert(line_views(lines@) =~= line_views(before).push(line@));
        assert(line@ == list[i as int]);
        i += 1;
        assert(line_views(lines@) =~= top + list.take(i as int));
    }
    assert(list.take(i as int) =~= list);
    if count > MAX_LISTED_ERRORS {
        let ghost before = lines@;
        let mut rest = "   … and ".to_string();
        rest.append(to_decimal((count - MAX_LISTED_ERRORS) as u64).as_str());
        rest.append(" more");
        lines.push(rest);
        assert(line_views(lines@) =~= line_views(before).push(rest@));
    }
    assert(line_views(lines@) =~= warning_lines(errors@, line_views(paths@)));
    lines
}

/// Renders the warnings about what an analysis could not access.
pub fn render_warnings(analysis: &Analysis) -> (lines: Vec<String>)
    ensures
        line_views(lines@) == warning_lines(analysis@.errors, error_paths(analysis@.errors)),
{
    let errors = analysis.errors();
    let mut paths: Vec<String> = Vec::new();
    let mut i: usize = 0;
    while i < errors.len() && i < MAX_LISTED_ERRORS
        invariant
            i <= errors@.len(),
            i <= MAX_LISTED_ERRORS,
            line_views(paths@) == error_paths(errors@).take(i as int),
        decreases errors@.len() - i,
    {
        let ghost before = paths@;
        let path = display_path(errors[i].path());
        paths.push(path);
        i += 1;
        assert(line_views(paths@) =~= line_views(before).push(path@));
        assert(line_views(paths@) =~= error_paths(errors@).take(i as int));
    }
    assert(paths@.len() == line_views(paths@).len());
    let lines = render_warning_lines(errors, &paths);
    assert(warning_lines(errors@, line_views(paths@)) =~= warning_lines(
        errors@,
        error_paths(errors@),
    ));
    lines
}

// ---------------------------------------------------------------------------
// Plain text
// ---------------------------------------------------------------------------

/// The first `n` entries' sizes in decimal.
pub open spec fn byte_counts(entries: Seq<Entry>, n: nat) -> Seq<Seq<char>> {
    Seq::new(n, |i: int| decimal(entries[i].size_in_bytes as nat))
}

/// The first `n` entries' sizes for reading, without a space before the unit:
/// that keeps each line a record of three fields.
pub open spec fn compact_sizes(entries: Seq<Entry>, n: nat) -> Seq<Seq<char>> {
    Seq::new(n, |i: int| human_size(entries[i].size_in_bytes, false))
}

/// The lines of the plain listing, given the texts of its second column: the
/// byte count, the size for reading, and the name.
pub open spec fn text_lines(entries: Seq<Entry>, sizes: Seq<Seq<char>>) -> Seq<Seq<char>> {
    let counts = byte_counts(entries, sizes.len());
    Seq::new(
        sizes.len(),
        |i: int|
            right_aligned(counts[i], column_width(counts)) + "  "@ + right_aligned(
                sizes[i],
                column_width(sizes),
            ) + "  "@ + entries[i].name@ + suffix(entries[i].is_dir),
    )
}

/// Renders the plain listing of the first entries, as many as there are texts
/// for the second column.
pub fn render_text_lines(entries: &[Entry], sizes: &Vec<String>) -> (lines: Vec<String>)
    requires
        sizes@.len() <= entries@.len(),
    ensures
        line_views(lines@) == text_lines(entries@, line_views(sizes@)),
{
    let n: usize = sizes.len();
    let ghost all = byte_counts(entries@, n as nat);
    let mut counts: Vec<String> = Vec::new();
    let mut i: usize = 0;
    while i < n
        invariant
            i <= n <= entries@.len(),
            all == byte_counts(entries@, n as nat),
            line_views(counts@) == all.take(i as int),
        decreases n - i,
    {
        let ghost before = counts@;
        let count = to_decimal(entries[i].size_in_bytes);
        counts.push(count);
        i += 1;
        assert(line_views(counts@) =~= line_views(before).push(count@));
        assert(line_views(counts@) =~= all.take(i as int));
    }
    assert(all.take(i as int) =~= all);
    assert(counts@.len() == line_views(counts@).len());
    let count_width: usize = widest(&counts);
    let size_width: usize = widest(sizes);
    let ghost target = text_lines(entries@, line_views(sizes@));
    let mut lines: Vec<String> = Vec::new();
    assert(line_views(lines@) =~= target.take(0));
    let mut k: usize = 0;
    while k < n
        invariant
            k <= n <= entries@.len(),
            n == sizes@.len(),
            n == counts@.len(),
            line_views(counts@) == byte_counts(entries@, n as nat),
            count_width as nat == column_width(line_views(counts@)),
            size_width as nat == column_width(line_views(sizes@)),
            target == text_lines(entries@, line_views(sizes@)),
            line_views(lines@) == target.take(k as int),
        decreases n - k,
    {
        let ghost before = lines@;
        let mut line = String::new();
        push_right_aligned(&mut line, counts[k].as_str(), count_width);
        line.append("  ");
        push_right_aligned(&mut line, sizes[k].as_str(), size_width);
        line.append("  ");
        line.append(entries[k].name.as_str());
        line.append(suffix_text(entries[k].is_dir));
        assert(line_views(counts@)[k as int] == counts@[k as int]@);
        assert(line@ =~= target[k as int]);
        lines.push(line);
        k += 1;
        assert(line_views(lines@) =~= line_views(before).push(line@));
        assert(line_views(lines@) =~= target.take(k as int));
    }
    assert(target.take(k as int) =~= target);
    lines
}

/// Renders the plain listing of an analysis: one line for each of the `top`
/// largest entries.
pub fn render_text(analysis: &Analysis, top: Option<usize>) -> (lines: Vec<String>)
    ensures
        line_views(lines@) == text_lines(
            analysis@.entries,
            compact_sizes(
                analysis@.entries,
                visible_count(analysis@.entries.len(), top),
            ),
        ),
        forall|i: int|
            0 <= i < lines@.len() ==> begins_with_sizes(
                #[trigger] lines@[i]@,
                analysis@.entries[i],
                human_size(analysis@.entries[i].size_in_bytes, false),
            ),
        forall|i: int|
            0 <= i < lines@.len() && analysis@.entries[i].name@.len() > 0 && is_word(
                analysis@.entries[i].name@,
            ) ==> fields(#[trigger] lines@[i]@) == text_fields(
                analysis@.entries[i],
                human_size(analysis@.entries[i].size_in_bytes, false),
            ),
{
    let entries = analysis.entries();
    let n: usize = visible_len(entries.len(), top);
    let ghost all = compact_sizes(entries@, n as nat);
    let mut sizes: Vec<String> = Vec::new();
    let mut i: usize = 0;
    while i < n
        invariant
            i <= n <= entries@.len(),
            all == compact_sizes(entries@, n as nat),
            line_views(sizes@) == all.take(i as int),
            forall|k: int| 0 <= k < i ==> (#[trigger] all[k]).len() > 0 && is_word(all[k]),
        decreases n - i,
    {
        let ghost before = sizes@;
        let size = format_size(entries[i].size_in_bytes, false);
        assert(is_word(size@)) by {
            assert forall|k: int| 0 <= k < size@.len() implies !is_blank(#[trigger] size@[k]) by {
                assert(size@[k] as u32 != 0x20 && size@[k] as u32 >= 0x2e);
            }
        }
        assert(all[i as int] == size@);
        sizes.push(size);
        i += 1;
        assert(line_views(sizes@) =~= line_views(before).push(size@));
        assert(line_views(sizes@) =~= all.take(i as int));
    }
    assert(all.take(i as int) =~= all);
    assert(sizes@.len() == line_views(sizes@).len());
    let lines = render_text_lines(entries, &sizes);
    proof {
        assert(lines@.len() == line_views(lines@).len());
        assert forall|k: int| 0 <= k < lines@.len() implies begins_with_sizes(
            #[trigger] lines@[k]@,
            entries@[k],
            human_size(entries@[k].size_in_bytes, false),
        ) by {
            assert(all[k].len() > 0 && is_word(all[k]));
            assert(line_views(lines@)[k] == lines@[k]@);
            law_text_lines_begin_with_sizes(entries@, all, k);
        }
        assert forall|k: int|
            0 <= k < lines@.len() && entries@[k].name@.len() > 0 && is_word(
                entries@[k].name@,
            ) implies fields(#[trigger] lines@[k]@) == text_fields(
            entries@[k],
            human_size(entries@[k].size_in_bytes, false),
        ) by {
            assert(all[k].len() > 0 && is_word(all[k]));
            assert(line_views(lines@)[k] == lines@[k]@);
            law_text_lines_have_three_fields(entries@, all, k);
        }
    }
    lines
}

/// The three fields of an entry's line in the plain listing.
pub open spec fn text_fields(entry: Entry, size: Seq<char>) -> Seq<Seq<char>> {
    seq![decimal(entry.size_in_bytes as nat), size, entry.name@ + suffix(entry.is_dir)]
}

/// The first two fields of a line are the byte count and the size for reading.
pub open spec fn begins_with_sizes(line: Seq<char>, entry: Entry, size: Seq<char>) -> bool {
    &&& fields(line).len() >= 2
    &&& fields(line)[0] == decimal(entry.size_in_bytes as nat)
    &&& fields(line)[1] == size
}

/// What stands in front of the name in a line of the plain listing.
spec fn before_name(entries: Seq<Entry>, sizes: Seq<Seq<char>>, i: int) -> Seq<char> {
    let counts = byte_counts(entries, sizes.len());
    right_aligned(counts[i], column_width(counts)) + repeated(' ', 2) + right_aligned(
        sizes[i],
        column_width(sizes),
    ) + repeated(' ', 2)
}

proof fn lemma_before_name(entries: Seq<Entry>, sizes: Seq<Seq<char>>, i: int)
    requires
        0 <= i < sizes.len() <= entries.len(),
        sizes[i].len() > 0,
        is_word(sizes[i]),
    ensures
        text_lines(entries, sizes)[i] == before_name(entries, sizes, i) + (entries[i].name@
            + suffix(entries[i].is_dir)),
        fields_so_far(before_name(entries, sizes, i)) == (
            seq![decimal(entries[i].size_in_bytes as nat), sizes[i]],
            Seq::<char>::empty(),
        ),
{
    let counts = byte_counts(entries, sizes.len());
    let count = counts[i];
    let size = sizes[i];
    let a = fill(count.len(), column_width(counts));
    let b = fill(size.len(), column_width(sizes));
    lemma_decimal_is_word(entries[i].size_in_bytes as nat);
    reveal_strlit("  ");
    assert("  "@ =~= repeated(' ', 2));
    let none = Seq::<char>::empty();
    let t1 = none + repeated(' ', a);
    let t2 = t1 + count;
    let t3 = t2 + repeated(' ', 2);
    let t4 = t3 + repeated(' ', b);
    let t5 = t4 + size;
    let t6 = t5 + repeated(' ', 2);
    lemma_fields_spaces(none, a);
    lemma_fields_word(t1, count);
    lemma_fields_spaces(t2, 2);
    lemma_fields_spaces(t3, b);
    lemma_fields_word(t4, size);
    lemma_fields_spaces(t5, 2);
    assert(fields_so_far(t2).1 =~= count);
    assert(fields_so_far(t5).1 =~= size);
    assert(before_name(entries, sizes, i) =~= t6);
    assert(fields_so_far(t6).0 =~= seq![count, size]);
    assert(text_lines(entries, sizes)[i] =~= t6 + (entries[i].name@ + suffix(entries[i].is_dir)));
}

/// Whatever the name of an entry, its line in the plain listing begins with its
/// byte count and its size for reading as fields of their own.
pub proof fn law_text_lines_begin_with_sizes(entries: Seq<Entry>, sizes: Seq<Seq<char>>, i: int)
    requires
        0 <= i < sizes.len() <= entries.len(),
        sizes[i].len() > 0,
        is_word(sizes[i]),
    ensures
        begins_with_sizes(text_lines(entries, sizes)[i], entries[i], sizes[i]),
{
    let name = entries[i].name@ + suffix(entries[i].is_dir);
    lemma_before_name(entries, sizes, i);
    lemma_fields_kept(before_name(entries, sizes, i), name);
}

/// A line of the plain listing is a record of three fields, however its columns
/// are aligned, unless there are blanks in the name.
pub proof fn law_text_lines_have_three_fields(entries: Seq<Entry>, sizes: Seq<Seq<char>>, i: int)
    requires
        0 <= i < sizes.len() <= entries.len(),
        sizes[i].len() > 0,
        is_word(sizes[i]),
        entries[i].name@.len() > 0,
        is_word(entries[i].name@),
    ensures
        fields(text_lines(entries, sizes)[i]) == text_fields(entries[i], sizes[i]),
{
    let name = entries[i].name@ + suffix(entries[i].is_dir);
    let before = before_name(entries, sizes, i);
    lemma_before_name(entries, sizes, i);
    reveal_strlit("/");
    reveal_strlit("");
    assert forall|k: int| 0 <= k < name.len() implies !is_blank(#[trigger] name[k]) by {
        if k < entries[i].name@.len() {
            assert(name[k] == entries[i].name@[k]);
        }
    }
    lemma_fields_word(before, name);
    assert(fields_so_far(before + name).1 =~= name);
    assert(fields(before + name) =~= text_fields(entries[i], sizes[i]));
}

// ---------------------------------------------------------------------------
// What the lines show
// ---------------------------------------------------------------------------

/// The longer of a text and the column that it is set in.
pub open spec fn column_len(text: Seq<char>, width: nat) -> int {
    if text.len() < width {
        width as int
    } else {
        text.len() as int
    }
}

/// Where the bar begins in the line of a row.
pub open spec fn bar_place(row: RenderRow, size: Seq<char>, width: nat, color: bool) -> int {
    2 * color_open(row.depth as nat, color).len() + color_close(color).len() + 5 + column_len(
        size,
        width,
    )
}

/// The line of a row, wherever it stands in the tree, shows the row's own
/// share: of the 24 cells of its bar those are filled that the row's size takes
/// up of its level's total, in whole eighths, rounded down.
pub proof fn law_bars_show_the_share_of_the_row(
    row: RenderRow,
    size: Seq<char>,
    pct: Seq<char>,
    width: nat,
    color: bool,
    eighths: int,
)
    requires
        row.level_total > 0,
        eighths * row.level_total <= row.size_in_bytes * 24 * 8 < (eighths + 1) * row.level_total,
        eighths <= usize::MAX,
    ensures
        ({
            let line = row_line(row, size, pct, width, color);
            let at = bar_place(row, size, width, color);
            &&& at + 26 <= line.len()
            &&& line[at] == '▏'
            &&& line[at + 25] == '▕'
            &&& forall|place: int|
                0 <= place < 24 ==> {
                    let cell = #[trigger] line[at + 1 + place];
                    &&& eighths >= 8 * place + 8 ==> cell == '█'
                    &&& eighths <= 8 * place ==> cell == ' '
                    &&& 8 * place < eighths < 8 * place + 8 ==> cell
                        == seq!['▏', '▎', '▍', '▌', '▋', '▊', '▉'][eighths - 8 * place - 1]
                }
        }),
{
    lemma_bar_stands(row, size, pct, width, color);
    lemma_bar_shows(
        row_line(row, size, pct, width, color),
        bar_place(row, size, width, color),
        row.size_in_bytes,
        row.level_total,
        eighths,
    );
}

proof fn lemma_bar_shows(line: Seq<char>, at: int, value: u64, total: u64, eighths: int)
    requires
        stands_at(line, at, bar_text(value, total, BAR_WIDTH)),
        total > 0,
        eighths * total <= value * 24 * 8 < (eighths + 1) * total,
        eighths <= usize::MAX,
    ensures
        at + 26 <= line.len(),
        line[at] == '▏',
        line[at + 25] == '▕',
        forall|place: int|
            0 <= place < 24 ==> {
                let cell = #[trigger] line[at + 1 + place];
                &&& eighths >= 8 * place + 8 ==> cell == '█'
                &&& eighths <= 8 * place ==> cell == ' '
                &&& 8 * place < eighths < 8 * place + 8 ==> cell
                    == seq!['▏', '▎', '▍', '▌', '▋', '▊', '▉'][eighths - 8 * place - 1]
            },
{
    let bar = bar_text(value, total, BAR_WIDTH);
    law_cells_show_the_share(value, total, BAR_WIDTH, eighths);
    assert forall|k: int| 0 <= k < 26 implies line[at + k] == #[trigger] bar[k] by {
        assert(line.subrange(at, at + bar.len())[k] == line[at + k]);
    }
    assert(bar[0] == line[at + 0]);
    assert(bar[25] == line[at + 25]);
    assert forall|place: int| 0 <= place < 24 implies {
        let cell = #[trigger] line[at + 1 + place];
        &&& eighths >= 8 * place + 8 ==> cell == '█'
        &&& eighths <= 8 * place ==> cell == ' '
        &&& 8 * place < eighths < 8 * place + 8 ==> cell
            == seq!['▏', '▎', '▍', '▌', '▋', '▊', '▉'][eighths - 8 * place - 1]
    } by {
        assert(bar[place + 1] == line[at + (place + 1)]);
    }
}

proof fn lemma_bar_stands(
    row: RenderRow,
    size: Seq<char>,
    pct: Seq<char>,
    width: nat,
    color: bool,
)
    ensures
        ({
            let bar = bar_text(row.size_in_bytes, row.level_total, BAR_WIDTH);
            &&& bar.len() == 26
            &&& stands_at(
                row_line(row, size, pct, width, color),
                bar_place(row, size, width, color),
                bar,
            )
        }),
{
    reveal_strlit(" ");
    reveal_strlit("   ");
    let line = row_line(row, size, pct, width, color);
    let at = bar_place(row, size, width, color);
    let bar = bar_text(row.size_in_bytes, row.level_total, BAR_WIDTH);
    assert(line.subrange(at, at + bar.len()) =~= bar);
}

/// Two rows of the same size and level total show the same bar, whatever their
/// depth, kind, name and color.
pub proof fn law_same_share_same_bar(
    a: RenderRow,
    b: RenderRow,
    size: Seq<char>,
    pct_a: Seq<char>,
    pct_b: Seq<char>,
    width: nat,
    color_a: bool,
    color_b: bool,
)
    requires
        a.size_in_bytes == b.size_in_bytes,
        a.level_total == b.level_total,
    ensures
        ({
            let line_a = row_line(a, size, pct_a, width, color_a);
            let line_b = row_line(b, size, pct_b, width, color_b);
            let at_a = bar_place(a, size, width, color_a);
            let at_b = bar_place(b, size, width, color_b);
            line_a.subrange(at_a, at_a + 26) == line_b.subrange(at_b, at_b + 26)
        }),
{
    lemma_bar_stands(a, size, pct_a, width, color_a);
    lemma_bar_stands(b, size, pct_b, width, color_b);
}

/// The bar of a row is full where the row is as large as its level's total,
/// never where it is smaller, and blank where the row holds nothing or its
/// level does.
pub proof fn law_only_the_whole_fills_the_bar(
    row: RenderRow,
    size: Seq<char>,
    pct: Seq<char>,
    width: nat,
    color: bool,
)
    ensures
        ({
            let line = row_line(row, size, pct, width, color);
            let at = bar_place(row, size, width, color);
            &&& row.size_in_bytes == row.level_total && row.level_total > 0 ==> forall|k: int|
                at < k <= at + 24 ==> #[trigger] line[k] == '█'
            &&& row.size_in_bytes < row.level_total ==> line[at + 24] != '█'
            &&& row.size_in_bytes == 0 || row.level_total == 0 ==> forall|k: int|
                at < k <= at + 24 ==> #[trigger] line[k] == ' '
        }),
{
    let line = row_line(row, size, pct, width, color);
    let at = bar_place(row, size, width, color);
    lemma_bar_stands(row, size, pct, width, color);
    lemma_full_and_blank(line, at, row.size_in_bytes, row.level_total);
}

proof fn lemma_full_and_blank(line: Seq<char>, at: int, value: u64, total: u64)
    requires
        stands_at(line, at, bar_text(value, total, BAR_WIDTH)),
    ensures
        value == total && total > 0 ==> forall|k: int|
            at < k <= at + 24 ==> #[trigger] line[k] == '█',
        value < total ==> line[at + 24] != '█',
        value == 0 || total == 0 ==> forall|k: int|
            at < k <= at + 24 ==> #[trigger] line[k] == ' ',
{
    let bar = bar_text(value, total, BAR_WIDTH);
    assert(bar.len() == 26);
    assert forall|k: int| at <= k < at + 26 implies #[trigger] line[k] == bar[k - at] by {
        assert(line.subrange(at, at + bar.len())[k - at] == line[k]);
    }
    if value == 0 || total == 0 {
        law_bar_is_empty_for_nothing(value, total, BAR_WIDTH);
    }
    if value == total && total > 0 {
        law_bar_is_full_for_the_whole(total, BAR_WIDTH);
    }
    if value < total {
        let scaled = value * 24 * 8;
        let t = total as int;
        let eighths = scaled / t;
        assert(eighths * t <= scaled < (eighths + 1) * t && eighths < 192) by (nonlinear_arith)
            requires
                t > 0,
                0 <= value < t,
                scaled == value * 24 * 8,
                eighths == scaled / t,
        ;
        law_cells_show_the_share(value, total, BAR_WIDTH, eighths);
        assert(bar[23int + 1] != '█') by {
            let part = seq!['▏', '▎', '▍', '▌', '▋', '▊', '▉'];
            assert(part[0] == '▏' && part[1] == '▎' && part[2] == '▍' && part[3] == '▌'
                && part[4] == '▋' && part[5] == '▊' && part[6] == '▉');
        }
    }
}

/// Whether a line shows all that a row holds besides its bar: in front the
/// marker, a triangle for a directory and a dot for a file at the top level,
/// then the size at the right edge of its column; behind the bar the
/// percentage, the tree lines, and last the name, a directory's with a slash.
pub open spec fn shows_row(
    line: Seq<char>,
    row: RenderRow,
    size: Seq<char>,
    pct: Seq<char>,
    width: nat,
    color: bool,
) -> bool {
    let open = color_open(row.depth as nat, color);
    let close = color_close(color);
    let at = bar_place(row, size, width, color);
    let pct_end = at + 29 + close.len() + column_len(pct, 5);
    let tree = pct_end + 4 + open.len();
    let name = tree + row.line_prefix@.len() + close.len();
    &&& stands_at(line, 0, open)
    &&& line[open.len() as int] == if row.depth > 0 {
        ' '
    } else if row.is_dir {
        '▸'
    } else {
        '·'
    }
    &&& stands_at(line, at - open.len() - 3 - size.len(), size)
    &&& forall|k: int|
        open.len() + close.len() + 1 <= k < at - open.len() - 3 - size.len() ==>
        #[trigger] line[k] == ' '
    &&& stands_at(line, at - open.len(), open)
    &&& stands_at(line, at + 26, close)
    &&& stands_at(line, pct_end - pct.len(), pct)
    &&& line[pct_end] == '%'
    &&& stands_at(line, tree, row.line_prefix@)
    &&& stands_at(line, name, row.name@)
    &&& row.is_dir ==> line.len() == name + row.name@.len() + 1 && line.last() == '/'
    &&& !row.is_dir ==> line.len() == name + row.name@.len()
}

/// The line of a row shows the row, whatever its texts and wherever it stands.
pub proof fn law_lines_show_the_whole_row(
    row: RenderRow,
    size: Seq<char>,
    pct: Seq<char>,
    width: nat,
    color: bool,
)
    ensures
        shows_row(row_line(row, size, pct, width, color), row, size, pct, width, color),
{
    lemma_row_splits(row, size, pct, width, color);
    lemma_shows_row(row_line(row, size, pct, width, color), row, size, pct, width, color);
}

proof fn lemma_row_splits(
    row: RenderRow,
    size: Seq<char>,
    pct: Seq<char>,
    width: nat,
    color: bool,
)
    ensures
        row_line(row, size, pct, width, color) == (row_front(row, size, width, color) + bar_text(
            row.size_in_bytes,
            row.level_total,
            BAR_WIDTH,
        )) + row_back(row, pct, color),
{
    reveal(row_front);
    reveal(row_back);
    assert(row_line(row, size, pct, width, color) =~= (row_front(row, size, width, color)
        + bar_text(row.size_in_bytes, row.level_total, BAR_WIDTH)) + row_back(row, pct, color));
}

proof fn lemma_shows_row(
    line: Seq<char>,
    row: RenderRow,
    size: Seq<char>,
    pct: Seq<char>,
    width: nat,
    color: bool,
)
    requires
        line == (row_front(row, size, width, color) + bar_text(
            row.size_in_bytes,
            row.level_total,
            BAR_WIDTH,
        )) + row_back(row, pct, color),
    ensures
        shows_row(line, row, size, pct, width, color),
{
    let open = color_open(row.depth as nat, color);
    let close = color_close(color);
    let at = bar_place(row, size, width, color);
    let front = row_front(row, size, width, color);
    let bar = bar_text(row.size_in_bytes, row.level_total, BAR_WIDTH);
    let back = row_back(row, pct, color);
    lemma_row_front(row, size, width, color);
    lemma_row_back(row, pct, color);
    assert((front + bar).len() == at + 26);
    assert(line =~= front + (bar + back));
    lemma_stands_in_front(front, bar + back, 0, open);
    lemma_stands_in_front(front, bar + back, at - open.len() - 3 - size.len(), size);
    lemma_stands_in_front(front, bar + back, at - open.len(), open);
    let pct_end = 3 + close.len() + column_len(pct, 5);
    let tree = pct_end + 4 + open.len();
    lemma_stands_behind(front + bar, back, 0, close);
    lemma_stands_behind(front + bar, back, pct_end - pct.len(), pct);
    lemma_stands_behind(front + bar, back, tree, row.line_prefix@);
    lemma_stands_behind(front + bar, back, tree + row.line_prefix@.len() + close.len(), row.name@);
    assert(line[at + 26 + pct_end] == back[pct_end]);
    assert(front[open.len() as int] == line[open.len() as int]);
    assert(row.is_dir ==> line.last() == back.last());
}

/// What stands in front of the bar in the line of a row.
#[verifier::opaque]
spec fn row_front(row: RenderRow, size: Seq<char>, width: nat, color: bool) -> Seq<char> {
    let c0 = color_open(row.depth as nat, color);
    let c1 = color_close(color);
    c0 + seq![marker(row.depth as nat, row.is_dir)] + c1 + " "@ + right_aligned(size, width)
        + "   "@ + c0
}

/// What stands behind the bar in the line of a row.
#[verifier::opaque]
spec fn row_back(row: RenderRow, pct: Seq<char>, color: bool) -> Seq<char> {
    let c0 = color_open(row.depth as nat, color);
    let c1 = color_close(color);
    c1 + "   "@ + right_aligned(pct, 5) + "%   "@ + c0 + row.line_prefix@ + c1 + row.name@ + suffix(
        row.is_dir,
    )
}

proof fn lemma_row_front(row: RenderRow, size: Seq<char>, width: nat, color: bool)
    ensures
        ({
            let front = row_front(row, size, width, color);
            let open = color_open(row.depth as nat, color);
            let close = color_close(color);
            let at = bar_place(row, size, width, color);
            &&& front.len() == at
            &&& stands_at(front, 0, open)
            &&& front[open.len() as int] == marker(row.depth as nat, row.is_dir)
            &&& stands_at(front, at - open.len() - 3 - size.len(), size)
            &&& forall|k: int|
                open.len() + close.len() + 1 <= k < at - open.len() - 3 - size.len() ==>
                #[trigger] front[k] == ' '
            &&& stands_at(front, at - open.len(), open)
        }),
{
    reveal(row_front);
    reveal_strlit(" ");
    reveal_strlit("   ");
    let front = row_front(row, size, width, color);
    let open = color_open(row.depth as nat, color);
    let at = bar_place(row, size, width, color);
    let size_at = at - open.len() - 3 - size.len();
    assert(front.subrange(0, open.len() as int) =~= open);
    assert(front.subrange(size_at, size_at + size.len()) =~= size);
    assert(front.subrange(at - open.len(), at - open.len() + open.len()) =~= open);
}

proof fn lemma_row_back(row: RenderRow, pct: Seq<char>, color: bool)
    ensures
        ({
            let back = row_back(row, pct, color);
            let open = color_open(row.depth as nat, color);
            let close = color_close(color);
            let pct_end = 3 + close.len() + column_len(pct, 5);
            let tree = pct_end + 4 + open.len();
            let name = tree + row.line_prefix@.len() + close.len();
            &&& stands_at(back, 0, close)
            &&& stands_at(back, pct_end - pct.len(), pct)
            &&& back[pct_end] == '%'
            &&& stands_at(back, tree, row.line_prefix@)
            &&& stands_at(back, name, row.name@)
            &&& row.is_dir ==> back.len() == name + row.name@.len() + 1 && back.last() == '/'
            &&& !row.is_dir ==> back.len() == name + row.name@.len()
        }),
{
    reveal(row_back);
    reveal_strlit("   ");
    reveal_strlit("%   ");
    reveal_strlit("/");
    reveal_strlit("");
    let back = row_back(row, pct, color);
    let open = color_open(row.depth as nat, color);
    let close = color_close(color);
    let pct_end = 3 + close.len() + column_len(pct, 5);
    let tree = pct_end + 4 + open.len();
    let name = tree + row.line_prefix@.len() + close.len();
    let pct_at = pct_end - pct.len();
    assert(back.subrange(0, close.len() as int) =~= close);
    assert(back.subrange(pct_at, pct_at + pct.len()) =~= pct);
    assert(back.subrange(tree, tree + row.line_prefix@.len()) =~= row.line_prefix@);
    assert(back.subrange(name, name + row.name@.len()) =~= row.name@);
}

proof fn lemma_stands_in_front(front: Seq<char>, back: Seq<char>, at: int, part: Seq<char>)
    requires
        stands_at(front, at, part),
    ensures
        stands_at(front + back, at, part),
{
    assert((front + back).subrange(at, at + part.len()) =~= front.subrange(at, at + part.len()));
}

proof fn lemma_stands_behind(front: Seq<char>, back: Seq<char>, at: int, part: Seq<char>)
    requires
        stands_at(back, at, part),
    ensures
        stands_at(front + back, front.len() + at, part),
{
    let there = front.len() + at;
    assert((front + back).subrange(there, there + part.len()) =~= back.subrange(
        at,
        at + part.len(),
    ));
}

/// A report has a line for each of its rows, in their order, between the line
/// with the labels and the two lines with the total. All rows share one size
/// column, as wide as the widest size.
pub proof fn law_every_row_has_its_line(
    rows: Seq<RenderRow>,
    sizes: Seq<Seq<char>>,
    pcts: Seq<Seq<char>>,
    total: Seq<char>,
    label: Seq<char>,
    color: bool,
)
    ensures
        ({
            let lines = table_lines(rows, sizes, pcts, total, label, color);
            let width = column_width(sizes);
            let wide = if width < byte_len(total) {
                byte_len(total)
            } else {
                width
            };
            &&& lines.len() == rows.len() + 3
            &&& lines[0] == header_line(width)
            &&& forall|i: int|
                0 <= i < rows.len() ==> #[trigger] lines[i + 1] == row_line(
                    rows[i],
                    sizes[i],
                    pcts[i],
                    width,
                    color,
                )
            &&& lines[rows.len() + 1int] == rule_line(wide)
            &&& lines[rows.len() + 2int] == total_line(total, label, wide)
        }),
{
}

/// The labels stand over their columns: that of the sizes ends where they end,
/// that of the bars begins where they begin, in a column two wider than they
/// are, and that of the names stands last.
pub proof fn law_labels_stand_over_their_columns(width: nat)
    ensures
        ({
            let line = header_line(width);
            let at = 5 + column_len("size"@, width);
            &&& stands_at(line, at - 7, "size"@)
            &&& forall|k: int| 0 <= k < at - 7 ==> #[trigger] line[k] == ' '
            &&& stands_at(line, at, "share"@)
            &&& stands_at(line, at + 32, "pct"@)
            &&& stands_at(line, at + 38, "name"@)
            &&& line.len() == at + 42
            &&& forall|k: int|
                at + 5 <= k < at + 32 || at + 35 <= k < at + 38 ==> #[trigger] line[k] == ' '
        }),
{
    reveal_strlit("  ");
    reveal_strlit("size");
    reveal_strlit("   ");
    reveal_strlit("share");
    reveal_strlit("  pct");
    reveal_strlit("pct");
    reveal_strlit("   name");
    reveal_strlit("name");
    let line = header_line(width);
    let at = 5 + column_len("size"@, width);
    assert(line.subrange(at - 7, at - 7 + 4) =~= "size"@);
    assert(line.subrange(at, at + 5) =~= "share"@);
    assert(line.subrange(at + 32, at + 32 + 3) =~= "pct"@);
    assert(line.subrange(at + 38, at + 38 + 4) =~= "name"@);
}

/// Beneath the rows a rule is drawn under the size column, and beneath the rule
/// the total stands at its right end, with its label behind it.
pub proof fn law_the_total_stands_under_the_rule(total: Seq<char>, label: Seq<char>, width: nat)
    ensures
        ({
            let rule = rule_line(width);
            let line = total_line(total, label, width);
            let end = 2 + column_len(total, width);
            &&& rule.len() == 2 + width
            &&& rule[0] == ' ' && rule[1] == ' '
            &&& forall|k: int| 2 <= k < 2 + width ==> #[trigger] rule[k] == '━'
            &&& line[0] == 'Σ'
            &&& stands_at(line, end - total.len(), total)
            &&& forall|k: int| 1 <= k < end - total.len() ==> #[trigger] line[k] == ' '
            &&& forall|k: int| end <= k < end + 3 ==> #[trigger] line[k] == ' '
            &&& stands_at(line, end + 3, label)
            &&& line.len() == end + 3 + label.len()
        }),
{
    reveal_strlit("  ");
    reveal_strlit("Σ ");
    reveal_strlit("   ");
    let line = total_line(total, label, width);
    let end = 2 + column_len(total, width);
    let at = end - total.len();
    assert(line.subrange(at, at + total.len()) =~= total);
    assert(line.subrange(end + 3, end + 3 + label.len()) =~= label);
}

/// The total is marked as that of the root where entries of it are left out, or
/// rows beneath them may be shown, and nowhere else.
pub proof fn law_the_label_tells_what_is_shown(count: nat, top: Option<usize>, levels: usize)
    ensures
        total_label(count, top, levels) == "total (root)"@ <==> (levels > 1 || (top matches Some(n)
            && n < count)),
        total_label(count, top, levels) == "total (root)"@ || total_label(count, top, levels)
            == "total"@,
{
    reveal_strlit("total (root)");
    reveal_strlit("total");
}

/// The sizes in a report are those of its rows, one for one, as they are
/// written for reading.
pub proof fn law_sizes_are_those_of_the_rows(rows: Seq<RenderRow>)
    ensures
        row_sizes(rows).len() == rows.len(),
        forall|i: int|
            0 <= i < rows.len() ==> #[trigger] row_sizes(rows)[i] == human_size(
                rows[i].size_in_bytes,
                true,
            ),
{
}

/// The line for a directory without entries names it.
pub proof fn law_the_empty_line_names_the_root(root: Seq<char>)
    ensures
        stands_at(empty_line(root), 0, "(empty: "@),
        stands_at(empty_line(root), 8, root),
        stands_at(empty_line(root), root.len() + 8int, " contains no entries)"@),
        empty_line(root).len() == root.len() + 29,
{
    reveal_strlit("(empty: ");
    reveal_strlit(" contains no entries)");
    let line = empty_line(root);
    assert(line.subrange(0, 8) =~= "(empty: "@);
    assert(line.subrange(8, 8int + root.len()) =~= root);
    assert(line.subrange(root.len() + 8int, root.len() + 29int) =~= " contains no entries)"@);
}

/// Where all could be read there is no warning. Else the warnings are a blank
/// line, a line with the number of errors, a line for each of the first ten
/// errors, with its reason and its path, and where there are more a line with
/// the number of those that are left.
pub proof fn law_warnings_list_the_first_errors(
    errors: Seq<AnalysisError>,
    paths: Seq<Seq<char>>,
)
    ensures
        ({
            let lines = warning_lines(errors, paths);
            let n = errors.len() as int;
            &&& n == 0 ==> lines.len() == 0
            &&& 0 < n <= 10 ==> lines.len() == n + 2
            &&& n > 10 ==> lines.len() == 13
            &&& n > 0 ==> lines[0].len() == 0
            &&& n > 0 ==> stands_at(lines[1], 3, decimal(errors.len()))
            &&& n > 0 ==> lines[1].skip(3 + decimal(errors.len()).len() as int)
                == " path(s) could not be fully read; reported sizes may be undercounts:"@
            &&& forall|i: int|
                0 <= i < n && i < 10 ==> {
                    let line = #[trigger] lines[i + 2];
                    let reason = errors[i].spec_reason();
                    &&& line.len() == reason.len() + paths[i].len() + 7
                    &&& stands_at(line, 5, reason)
                    &&& line[reason.len() + 5int] == ':'
                    &&& line[reason.len() + 6int] == ' '
                    &&& stands_at(line, reason.len() + 7int, paths[i])
                }
            &&& n > 10 ==> lines[12].take(9) == "   … and "@
            &&& n > 10 ==> stands_at(lines[12], 9, decimal((n - 10) as nat))
            &&& n > 10 ==> lines[12].skip(9 + decimal((n - 10) as nat).len() as int) == " more"@
        }),
{
    reveal_strlit("");
    reveal_strlit("⚠  ");
    reveal_strlit("   • ");
    reveal_strlit(": ");
    reveal_strlit("   … and ");
    let lines = warning_lines(errors, paths);
    let n = errors.len() as int;
    if n > 0 {
        let count = decimal(errors.len());
        assert(lines[1] == warning_header(errors.len()));
        assert(lines[1].subrange(3, 3int + count.len()) =~= count);
        assert(lines[1].skip(3 + count.len() as int)
            =~= " path(s) could not be fully read; reported sizes may be undercounts:"@);
        assert forall|i: int| 0 <= i < n && i < 10 implies {
            let line = #[trigger] lines[i + 2];
            let reason = errors[i].spec_reason();
            &&& line.len() == reason.len() + paths[i].len() + 7
            &&& stands_at(line, 5, reason)
            &&& line[reason.len() + 5int] == ':'
            &&& line[reason.len() + 6int] == ' '
            &&& stands_at(line, reason.len() + 7int, paths[i])
        } by {
            let line = lines[i + 2];
            let reason = errors[i].spec_reason();
            assert(line == warning_line(errors[i], paths[i]));
            assert(line.subrange(5, 5int + reason.len()) =~= reason);
            assert(line.subrange(reason.len() + 7int, reason.len() + 7int + paths[i].len())
                =~= paths[i]);
        }
    }
    if n > 10 {
        let rest = decimal((n - 10) as nat);
        assert(lines[12] == warning_rest((n - 10) as nat));
        assert(lines[12].take(9) =~= "   … and "@);
        assert(lines[12].subrange(9, 9int + rest.len()) =~= rest);
        assert(lines[12].skip(9 + rest.len() as int) =~= " more"@);
    }
}

/// The paths of the warnings are those that the errors are about, one for one.
pub proof fn law_warnings_name_the_paths(errors: Seq<AnalysisError>)
    ensures
        error_paths(errors).len() == errors.len(),
        forall|i: int|
            0 <= i < errors.len() ==> #[trigger] error_paths(errors)[i] == path_text(
                match errors[i] {
                    AnalysisError::NoMetadata(path) => path,
                    AnalysisError::CouldNotReadDir(path) => path,
                },
            ),
{
}

/// The plain listing has a line for each entry that is shown. A line ends with
/// the entry's own name, a directory's with a slash behind it, and the names
/// of all lines begin in the same column where the texts in front are ASCII.
pub proof fn law_the_listing_names_every_entry(entries: Seq<Entry>, sizes: Seq<Seq<char>>, i: int)
    requires
        0 <= i < sizes.len() <= entries.len(),
    ensures
        ({
            let lines = text_lines(entries, sizes);
            let counts = byte_counts(entries, sizes.len());
            let count = decimal(entries[i].size_in_bytes as nat);
            let count_end = column_len(count, column_width(counts));
            let size_end = count_end + 2 + column_len(sizes[i], column_width(sizes));
            &&& lines.len() == sizes.len()
            &&& counts.len() == sizes.len()
            &&& counts[i] == count
            &&& stands_at(lines[i], count_end - count.len(), count)
            &&& stands_at(lines[i], size_end - sizes[i].len(), sizes[i])
            &&& stands_at(lines[i], size_end + 2, entries[i].name@)
            &&& entries[i].is_dir ==> lines[i].len() == size_end + 3 + entries[i].name@.len()
                && lines[i].last() == '/'
            &&& !entries[i].is_dir ==> lines[i].len() == size_end + 2 + entries[i].name@.len()
        }),
{
    reveal_strlit("  ");
    reveal_strlit("/");
    reveal_strlit("");
    let line = text_lines(entries, sizes)[i];
    let counts = byte_counts(entries, sizes.len());
    let count = counts[i];
    let size = sizes[i];
    let name = entries[i].name@;
    let count_end = column_len(count, column_width(counts));
    let size_end = count_end + 2 + column_len(size, column_width(sizes));
    assert(line.subrange(count_end - count.len(), count_end - count.len() + count.len())
        =~= count);
    assert(line.subrange(size_end - size.len(), size_end - size.len() + size.len()) =~= size);
    assert(line.subrange(size_end + 2, size_end + 2 + name.len()) =~= name);
}

/// The second column of the plain listing holds the sizes of the entries that
/// are shown, each as it is written for reading.
pub proof fn law_the_listing_sizes_every_entry(entries: Seq<Entry>, n: nat, i: int)
    requires
        0 <= i < n <= entries.len(),
    ensures
        compact_sizes(entries, n).len() == n,
        compact_sizes(entries, n)[i] == human_size(entries[i].size_in_bytes, false),
{
}

} // verus!
