use std::path::PathBuf;

use dush::models::{Consumer, Models};
use dush::outline::{ends_chunk, Outline, OutlineConsumer};
use dush::status::{plural_y, Status};
use dush::window::{
    count_dirs, recompute_percentages, request_populate, sized_message, Batch, DepthBar, EntryItem,
    WorkerMsg,
};
use dush::Entry;

fn entry(path: &str, is_dir: bool, size_in_bytes: u64) -> Entry {
    let path = PathBuf::from(path);
    let name = path.file_name().expect("a name").to_string_lossy().into_owned();
    Entry { path, name, size_in_bytes, is_dir }
}

fn listed(parent: Option<&str>, entries: Vec<Entry>) -> WorkerMsg {
    WorkerMsg::Enumerated { parent_path: parent.map(PathBuf::from), entries }
}

fn sized(path: &str, parent: Option<&str>, size: u64) -> WorkerMsg {
    WorkerMsg::Sized { path: PathBuf::from(path), parent_path: parent.map(PathBuf::from), size }
}

fn failed(parent: Option<&str>, message: &str) -> WorkerMsg {
    WorkerMsg::EnumerateFailed {
        parent_path: parent.map(PathBuf::from),
        message: message.to_string(),
    }
}

/// The rows of a level as `name size percent`.
fn level(models: &Models, level: usize) -> Vec<String> {
    models
        .level(level)
        .iter()
        .map(|&id| {
            let item = models.item(id);
            format!("{} {} {}", item.name, item.size_human, item.percent)
        })
        .collect()
}

/// The rows beneath a row as `name size percent depth`.
fn beneath(outline: &Outline, parent: Option<usize>) -> Vec<String> {
    outline
        .children(parent)
        .iter()
        .map(|&id| {
            let item = outline.item(id);
            format!("{} {} {} {}", item.name, item.size_human, item.percent, item.depth)
        })
        .collect()
}

/// One turn of the classic tree view, its rows shown in the order in which they
/// were made.
fn turn(window: &mut OutlineConsumer, msg: &WorkerMsg, queue_is_empty: bool) -> (bool, bool) {
    let applied = window.handle(&Vec::new(), msg);
    (applied, window.end_turn(&Vec::new(), queue_is_empty))
}

// ----- Rows ------------------------------------------------------------------

#[test]
fn directory_row_waits_for_its_size() {
    let item = EntryItem::from_entry(&entry("/r/d", true, 0), 2);
    assert_eq!(item.name, "d/");
    assert_eq!(item.size_human, "…");
    assert_eq!(item.path, "/r/d");
    assert_eq!((item.size_bytes, item.percent, item.depth), (0, 0, 2));
    assert_eq!((item.is_dir, item.loaded, item.sized), (true, false, false));
}

#[test]
fn file_row_is_complete() {
    let item = EntryItem::from_entry(&entry("/r/f.txt", false, 2048), 0);
    assert_eq!(item.name, "f.txt");
    assert_eq!(item.size_human, "2 KiB");
    assert_eq!((item.size_bytes, item.percent, item.depth), (2048, 0, 0));
    assert_eq!((item.is_dir, item.loaded, item.sized), (false, true, true));
}

#[test]
fn rows_from_given_texts() {
    let item = EntryItem::from_parts(
        &entry("/r/f", false, 7),
        1,
        "path".to_string(),
        "size".to_string(),
    );
    assert_eq!((item.path.as_str(), item.size_human.as_str()), ("path", "size"));
}

#[test]
fn synthetic_rows_have_no_path() {
    let error = EntryItem::error_row("Permission denied (os error 13)", 3);
    assert_eq!(error.name, "(error: Permission denied (os error 13))");
    assert_eq!((error.path.as_str(), error.size_human.as_str()), ("", ""));
    assert_eq!((error.is_dir, error.loaded, error.sized, error.depth), (false, true, true, 3));
    let loading = EntryItem::placeholder_row(1);
    assert_eq!(loading.name, "(loading…)");
    assert_eq!((loading.path.as_str(), loading.depth), ("", 1));
}

#[test]
fn shares_round_down_and_skip_synthetic_rows() {
    let mut items = vec![
        EntryItem::from_entry(&entry("/r/a", false, 1), 0),
        EntryItem::from_entry(&entry("/r/b", false, 2), 0),
        EntryItem::error_row("x", 0),
        EntryItem::from_entry(&entry("/r/other", false, 100), 0),
    ];
    recompute_percentages(&mut items, &vec![0, 1, 2]);
    let percents: Vec<i32> = items.iter().map(|i| i.percent).collect();
    assert_eq!(percents, vec![33, 66, 0, 0]);
    // Once more changes nothing.
    recompute_percentages(&mut items, &vec![0, 1, 2]);
    let again: Vec<i32> = items.iter().map(|i| i.percent).collect();
    assert_eq!(again, percents);
}

#[test]
fn shares_of_nothing_are_zero() {
    let mut items = vec![EntryItem::from_entry(&entry("/r/a", false, 0), 0)];
    recompute_percentages(&mut items, &vec![0]);
    assert_eq!(items[0].percent, 0);
}

#[test]
fn total_of_a_level_saturates() {
    let mut items = vec![
        EntryItem::from_entry(&entry("/r/a", false, u64::MAX), 0),
        EntryItem::from_entry(&entry("/r/b", false, u64::MAX), 0),
    ];
    recompute_percentages(&mut items, &vec![0, 1]);
    assert_eq!((items[0].percent, items[1].percent), (100, 100));
}

#[test]
fn bar_shows_a_clamped_share() {
    assert_eq!(DepthBar { percent: 42, depth: 0 }.label(), "42%");
    assert_eq!(DepthBar { percent: 420, depth: 0 }.label(), "100%");
    assert_eq!(DepthBar { percent: -3, depth: 0 }.label(), "0%");
    assert_eq!(DepthBar { percent: -3, depth: 0 }.shown_percent(), 0);
    assert_eq!(DepthBar { percent: 1, depth: 9 }.color(), 2);
    assert_eq!(DepthBar { percent: 1, depth: -9 }.color(), 0);
}

// ----- Workers ---------------------------------------------------------------

#[test]
fn worker_sizes_the_directories_it_lists() {
    let parent = Some(PathBuf::from("/r"));
    let entries =
        vec![entry("/r/b", true, 0), entry("/r/f", false, 5), entry("/r/a", true, 0)];
    assert_eq!(count_dirs(&entries), 2);
    let (msg, dirs) = request_populate(parent, Ok(entries));
    assert_eq!(dirs, vec![PathBuf::from("/r/b"), PathBuf::from("/r/a")]);
    match msg {
        WorkerMsg::Enumerated { parent_path, entries } => {
            assert_eq!(parent_path, Some(PathBuf::from("/r")));
            assert_eq!(entries.len(), 3);
        }
        _ => unreachable!(),
    }
}

#[test]
fn worker_reports_sizes_for_its_listing() {
    let parent = Some(PathBuf::from("/r"));
    match sized_message(&parent, PathBuf::from("/r/d"), 7) {
        WorkerMsg::Sized { path, parent_path, size } => {
            assert_eq!(path, PathBuf::from("/r/d"));
            assert_eq!(parent_path, parent);
            assert_eq!(size, 7);
        }
        _ => unreachable!(),
    }
}

#[test]
fn worker_reports_a_failed_listing() {
    let (msg, dirs) = request_populate(None, Err("no".to_string()));
    assert!(dirs.is_empty());
    match msg {
        WorkerMsg::EnumerateFailed { parent_path, message } => {
            assert_eq!(parent_path, None);
            assert_eq!(message, "no");
        }
        _ => unreachable!(),
    }
}

#[test]
fn pauses_come_after_a_batch_or_when_idle() {
    let mut batch = Batch::new();
    for _ in 0..63 {
        assert!(!batch.count(false));
    }
    assert!(batch.count(false));
    assert!(!batch.count(false));
    assert!(batch.count(true));
    assert!(!batch.count(false));
}

#[test]
fn chunks_of_a_listing() {
    assert!(!ends_chunk(0));
    assert!(ends_chunk(255));
    assert!(!ends_chunk(256));
    assert!(ends_chunk(511));
}

// ----- Status bar ------------------------------------------------------------

#[test]
fn status_texts() {
    let mut status = Status::new();
    assert_eq!(status.refresh(), "Ready");
    status.enqueue(1);
    assert_eq!(status.refresh(), "Sizing… 0/1 directory (1 pending)");
    status.complete_one();
    assert_eq!(status.refresh(), "✓ Done — 1 directory sized");
    status.enqueue(2);
    assert_eq!(status.refresh(), "Sizing… 1/3 directories (2 pending)");
    status.complete_one();
    status.complete_one();
    assert_eq!(status.refresh(), "✓ Done — 3 directories sized");
    // A size that nobody waits for does not go below zero.
    status.complete_one();
    assert_eq!(status.refresh(), "✓ Done — 4 directories sized");
    assert_eq!((status.queued(), status.sized()), (3, 4));
    assert_eq!((plural_y(0), plural_y(1), plural_y(2)), ("ies", "y", "ies"));
}

// ----- The column view -------------------------------------------------------

#[test]
fn listing_then_sizes() {
    let mut window = Consumer::new();
    let msg = listed(None, vec![entry("/r/d", true, 0), entry("/r/f", false, 1024)]);
    assert!(window.handle(&msg));
    assert!(window.end_turn(true));
    assert_eq!(level(&window.models, 0), vec!["d/ … 0", "f 1 KiB 100"]);
    assert_eq!(window.status.refresh(), "Sizing… 0/1 directory (1 pending)");
    assert!(window.handle(&sized("/r/d", None, 3072)));
    assert!(!window.end_turn(false));
    assert_eq!(level(&window.models, 0), vec!["d/ 3 KiB 75", "f 1 KiB 25"]);
    assert_eq!(window.status.refresh(), "✓ Done — 1 directory sized");
    assert!(window.models.item(0).sized);
}

#[test]
fn children_are_listed_under_their_row() {
    let mut window = Consumer::new();
    window.handle(&listed(None, vec![entry("/r/d", true, 0), entry("/r/f", false, 8)]));
    assert_eq!(window.models.children_store(1), None);
    let children = window.models.children_store(0).expect("a level");
    assert_eq!(window.models.children_store(0), Some(children));
    assert_eq!(window.models.level_count(), 2);
    assert_eq!(window.models.expand(0), Some(PathBuf::from("/r/d")));
    assert_eq!(window.models.expand(0), None);
    assert_eq!(window.models.expand(1), None);
    window.handle(&listed(Some("/r/d"), vec![entry("/r/d/x", true, 0), entry("/r/d/y", false, 2)]));
    assert_eq!(level(&window.models, children), vec!["x/ … 0", "y 2 B 100"]);
    let deep = window.models.level(children)[0];
    assert_eq!(window.models.item(deep).depth, 1);
    assert_eq!(window.models.store_for(&Some(PathBuf::from("/r/d"))), Some(children));
    assert_eq!(window.models.parent_depth(&Some(PathBuf::from("/r/d"))), 0);
    assert_eq!(window.models.parent_depth(&None), -1);
    // The same directory, spelled in another way.
    assert_eq!(window.models.store_for(&Some(PathBuf::from("/r//d/"))), Some(children));
    window.handle(&sized("/r/d/x", Some("/r/d"), 2));
    assert_eq!(level(&window.models, children), vec!["x/ 2 B 50", "y 2 B 50"]);
    assert_eq!(level(&window.models, 0), vec!["d/ … 0", "f 8 B 100"]);
}

#[test]
fn listing_without_a_level_is_dropped() {
    let mut window = Consumer::new();
    assert!(window.handle(&listed(Some("/r/nowhere"), vec![entry("/r/nowhere/x", true, 0)])));
    assert_eq!(window.models.item_count(), 0);
    assert_eq!(window.status.refresh(), "Ready");
}

#[test]
fn size_of_an_unknown_row_only_counts() {
    let mut window = Consumer::new();
    window.handle(&listed(None, vec![entry("/r/f", false, 8)]));
    assert!(window.handle(&sized("/r/gone", None, 99)));
    assert_eq!(level(&window.models, 0), vec!["f 8 B 100"]);
    assert_eq!(window.status.sized(), 1);
}

#[test]
fn failed_listing_shows_its_reason() {
    let mut window = Consumer::new();
    window.handle(&listed(None, vec![entry("/r/d", true, 0)]));
    let children = window.models.children_store(0).expect("a level");
    assert!(window.handle(&failed(Some("/r/d"), "denied")));
    assert_eq!(level(&window.models, children), vec!["(error: denied)  0"]);
    let row = window.models.level(children)[0];
    assert_eq!(window.models.item(row).depth, 1);
    assert!(window.handle(&failed(None, "root")));
    assert_eq!(level(&window.models, 0), vec!["(error: root)  0"]);
}

#[test]
fn listing_again_replaces_the_rows() {
    let mut window = Consumer::new();
    window.handle(&listed(None, vec![entry("/r/d", true, 0), entry("/r/f", false, 8)]));
    window.handle(&listed(None, vec![entry("/r/d", true, 0)]));
    assert_eq!(level(&window.models, 0), vec!["d/ … 0"]);
    // The size meets the row of the newer listing.
    window.handle(&sized("/r/d", None, 1024));
    assert_eq!(level(&window.models, 0), vec!["d/ 1 KiB 100"]);
    assert_eq!(window.status.refresh(), "Sizing… 1/2 directories (1 pending)");
}

// ----- The classic tree view -------------------------------------------------

#[test]
fn listing_adds_placeholders() {
    let mut window = OutlineConsumer::new();
    let msg = listed(None, vec![entry("/r/d", true, 0), entry("/r/f", false, 1024)]);
    assert_eq!(turn(&mut window, &msg, true), (true, true));
    let outline = window.outline();
    assert_eq!(beneath(outline, None), vec!["d/ … 0 0", "f 1 KiB 100 0"]);
    let dir = outline.find_row_by_path(&Vec::new(), &"/r/d".to_string()).expect("a row");
    assert_eq!(beneath(outline, Some(dir)), vec!["(loading…)  0 1"]);
    assert_eq!(window.status().refresh(), "Sizing… 0/1 directory (1 pending)");
}

#[test]
fn expanded_row_gets_its_children() {
    let mut window = OutlineConsumer::new();
    turn(&mut window, &listed(None, vec![entry("/r/d", true, 0)]), true);
    let dir = window.outline().find_row_by_path(&Vec::new(), &"/r/d".to_string()).expect("a row");
    assert_eq!(window.expand(dir), Some("/r/d".to_string()));
    assert_eq!(window.expand(dir), None);
    let msg = listed(Some("/r/d"), vec![entry("/r/d/x", true, 0), entry("/r/d/y", false, 3)]);
    turn(&mut window, &msg, true);
    let outline = window.outline();
    assert_eq!(beneath(outline, Some(dir)), vec!["x/ … 0 1", "y 3 B 100 1"]);
    let deep = outline.find_row_by_path(&Vec::new(), &"/r/d/x".to_string()).expect("a row");
    assert_eq!(outline.parent(deep), Some(dir));
    assert_eq!(beneath(outline, Some(deep)), vec!["(loading…)  0 2"]);
}

#[test]
fn shares_wait_for_the_pause() {
    let mut window = OutlineConsumer::new();
    let msg = listed(None, vec![entry("/r/a", true, 0), entry("/r/b", true, 0)]);
    turn(&mut window, &msg, true);
    assert_eq!(turn(&mut window, &sized("/r/a", None, 1024), false), (true, false));
    assert_eq!(beneath(window.outline(), None), vec!["a/ 1 KiB 0 0", "b/ … 0 0"]);
    assert_eq!(turn(&mut window, &sized("/r/b", None, 3072), true), (true, true));
    assert_eq!(beneath(window.outline(), None), vec!["a/ 1 KiB 25 0", "b/ 3 KiB 75 0"]);
    assert_eq!(window.status().refresh(), "✓ Done — 2 directories sized");
}

#[test]
fn shares_are_worked_out_at_the_end() {
    let mut window = OutlineConsumer::new();
    turn(&mut window, &listed(None, vec![entry("/r/a", true, 0)]), true);
    turn(&mut window, &sized("/r/a", None, 5), false);
    window.flush_dirty(&Vec::new());
    assert_eq!(beneath(window.outline(), None), vec!["a/ 5 B 100 0"]);
}

#[test]
fn shares_are_worked_out_before_a_listing() {
    let mut window = OutlineConsumer::new();
    let msg = listed(None, vec![entry("/r/a", true, 0), entry("/r/b", false, 5)]);
    turn(&mut window, &msg, true);
    turn(&mut window, &sized("/r/a", None, 5), false);
    assert_eq!(turn(&mut window, &listed(Some("/r/a"), Vec::new()), false), (true, false));
    assert_eq!(beneath(window.outline(), None), vec!["a/ 5 B 50 0", "b 5 B 50 0"]);
    // An empty listing leaves nothing beneath its row.
    let dir = window.outline().find_row_by_path(&Vec::new(), &"/r/a".to_string()).expect("a row");
    assert!(beneath(window.outline(), Some(dir)).is_empty());
}

#[test]
fn sizes_reach_deep_rows() {
    let mut window = OutlineConsumer::new();
    turn(&mut window, &listed(None, vec![entry("/r/a", true, 0)]), true);
    turn(&mut window, &listed(Some("/r/a"), vec![entry("/r/a/b", true, 0)]), true);
    turn(&mut window, 
        &listed(Some("/r/a/b"), vec![entry("/r/a/b/c", true, 0), entry("/r/a/b/e", true, 0)]),
        true,
    );
    turn(&mut window, &sized("/r/a/b/c", Some("/r/a/b"), 1), false);
    turn(&mut window, &sized("/r/a/b/e", Some("/r/a/b"), 1), false);
    turn(&mut window, &sized("/r/a/b", Some("/r/a"), 2), true);
    let outline = window.outline();
    let b = outline.find_row_by_path(&Vec::new(), &"/r/a/b".to_string()).expect("a row");
    assert_eq!(beneath(outline, Some(b)), vec!["c/ 1 B 50 2", "e/ 1 B 50 2"]);
    let a = outline.find_row_by_path(&Vec::new(), &"/r/a".to_string()).expect("a row");
    assert_eq!(beneath(outline, Some(a)), vec!["b/ 2 B 100 1"]);
}

#[test]
fn failure_takes_the_place_of_the_children() {
    let mut window = OutlineConsumer::new();
    turn(&mut window, &listed(None, vec![entry("/r/a", true, 0)]), true);
    turn(&mut window, &listed(Some("/r/a"), vec![entry("/r/a/b", true, 0)]), true);
    let a = window.outline().find_row_by_path(&Vec::new(), &"/r/a".to_string()).expect("a row");
    let b = window.outline().find_row_by_path(&Vec::new(), &"/r/a/b".to_string()).expect("a row");
    assert!(window.outline().is_alive(b));
    turn(&mut window, &failed(Some("/r/a"), "denied"), true);
    let outline = window.outline();
    assert_eq!(beneath(outline, Some(a)), vec!["(error: denied)  0 1"]);
    assert!(!outline.is_alive(b));
    assert_eq!(outline.find_row_by_path(&Vec::new(), &"/r/a/b".to_string()), None);
}

#[test]
fn failure_without_a_row_changes_nothing() {
    let mut window = OutlineConsumer::new();
    turn(&mut window, &listed(None, vec![entry("/r/a", false, 1)]), true);
    turn(&mut window, &failed(Some("/r/gone"), "denied"), true);
    turn(&mut window, &failed(None, "denied"), true);
    assert_eq!(beneath(window.outline(), None), vec!["a 1 B 100 0"]);
    assert_eq!(window.outline().item_count(), 1);
}

#[test]
fn listing_of_an_unknown_directory_goes_to_the_top() {
    let mut window = OutlineConsumer::new();
    turn(&mut window, &listed(Some("/r/gone"), vec![entry("/r/gone/x", false, 1)]), true);
    assert_eq!(beneath(window.outline(), None), vec!["x 1 B 100 0"]);
}

#[test]
fn error_row_is_one_deeper_than_its_directory() {
    let mut window = OutlineConsumer::new();
    turn(&mut window, &listed(None, vec![entry("/r/a", true, 0)]), true);
    turn(&mut window, &listed(Some("/r/a"), vec![entry("/r/a/b", true, 0)]), true);
    turn(&mut window, &failed(Some("/r/a/b"), "denied"), true);
    let b = window.outline().find_row_by_path(&Vec::new(), &"/r/a/b".to_string()).expect("a row");
    assert_eq!(beneath(window.outline(), Some(b)), vec!["(error: denied)  0 2"]);
}

#[test]
fn remembered_directory_is_known_in_another_spelling() {
    let mut window = OutlineConsumer::new();
    turn(&mut window, &listed(None, vec![entry("/r/a", true, 0)]), true);
    turn(
        &mut window,
        &listed(Some("/r/a"), vec![entry("/r/a/b", true, 0), entry("/r/a/c", true, 0)]),
        true,
    );
    turn(&mut window, &sized("/r/a/b", Some("/r/a"), 1), false);
    // The text "/r/a/" is no row's, but the directory is the one looked up last,
    // and is marked already.
    turn(&mut window, &sized("/r/a/c", Some("/r/a/"), 3), true);
    let a = window.outline().find_row_by_path(&Vec::new(), &"/r/a".to_string()).expect("a row");
    assert_eq!(beneath(window.outline(), Some(a)), vec!["b/ 1 B 25 1", "c/ 3 B 75 1"]);
}

#[test]
fn rows_under_one_text_are_found_in_the_order_shown() {
    let mut window = OutlineConsumer::new();
    // Two rows that show the same text.
    turn(&mut window, &listed(None, vec![entry("/r/a", false, 1), entry("/r/a", true, 0)]), true);
    let text = "/r/a".to_string();
    let outline = window.outline();
    assert!(outline.has_several(&text));
    assert!(!outline.has_several(&"/r/b".to_string()));
    assert_eq!(outline.find_row_by_path(&Vec::new(), &text), Some(0));
    assert_eq!(outline.find_row_by_path(&vec![9, 1, 0], &text), Some(1));
    let msg = sized("/r/a", None, 3);
    assert!(window.needs_order(&msg));
    assert!(!window.needs_order(&sized("/r/b", None, 3)));
    assert!(window.handle(&vec![1, 2, 0], &msg));
    assert!(!window.flush_needs_order());
    assert!(window.end_turn(&Vec::new(), true));
    assert_eq!(beneath(window.outline(), None), vec!["a 1 B 25 0", "a/ 3 B 75 0"]);
}

#[test]
fn cached_row_is_looked_up_again_after_a_failure() {
    let mut window = OutlineConsumer::new();
    turn(&mut window, &listed(None, vec![entry("/r/a", true, 0)]), true);
    turn(&mut window, &listed(Some("/r/a"), vec![entry("/r/a/b", true, 0)]), true);
    turn(&mut window, &listed(Some("/r/a/b"), vec![entry("/r/a/b/c", true, 0)]), true);
    // This remembers the row of /r/a/b, which then goes away.
    turn(&mut window, &sized("/r/a/b/c", Some("/r/a/b"), 7), false);
    turn(&mut window, &failed(Some("/r/a"), "denied"), false);
    assert_eq!(turn(&mut window, &sized("/r/a/b/c", Some("/r/a/b"), 9), true), (true, true));
    let a = window.outline().find_row_by_path(&Vec::new(), &"/r/a".to_string()).expect("a row");
    assert_eq!(beneath(window.outline(), Some(a)), vec!["(error: denied)  0 1"]);
}

#[test]
fn outline_resolves_rows() {
    let mut window = OutlineConsumer::new();
    turn(&mut window, &listed(None, vec![entry("/r/a", true, 0)]), true);
    let outline = window.outline();
    let any: Vec<usize> = Vec::new();
    assert_eq!(outline.resolve(&any, &None), None);
    assert_eq!(outline.resolve(&any, &Some(PathBuf::from("/r/a"))), Some(0));
    assert_eq!(outline.resolve(&any, &Some(PathBuf::from("/r/b"))), None);
    assert_eq!(outline.child_depth(None), 0);
    assert_eq!(outline.child_depth(Some(0)), 1);
}
